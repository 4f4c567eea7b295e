//! Properties of the buffer operations that hold for every input: reading back what was
//! written, drawing into a buffer without shaders, drawing part by part into a partitioned
//! buffer, where lines begin and end, what the rasterizer counts, and the arithmetic of
//! colors and triangles.
use vstd::prelude::*;
use crate::buffer::{Buffer, Canvas, pixel_at, write_pixel, lemma_index_in_bounds, lemma_index_injective, lemma_plot_seq_concat, filled_with};
use crate::region::{Dab, region_dabs, row_dabs};
use crate::draw::{solid, clamp_spec, rect_req, rect_result, rect_result_on, img_result_on, circle_result_on, rect_fill_dabs, image_fill, image_fits, img_result, circle_result, circle_box, disc_fill};
use crate::color::{Color, inverted_spec, mul_spec, mul_channel, add_fits, add_spec_color, sub_fits, sub_spec_color};
use crate::math::{in_triangle_spec, sign3_spec, fits_i32};
use crate::shapes::{line_from, line_points, abs_int, step_toward, lemma_line_from_first, octants, circle_from, circle_points};
use crate::compose::{lemma_blit_bytes_pixel, lemma_byte_decompose};
use crate::partitioned_buffer::{PartitionedBuffer, blit_back, scheme_grid, law_partitions_inside, cell_len, grid_cell, cell_pixels, lemma_cell_pixel};
use crate::rasterizer::{RCanvas, RDab, op_color, bg_at, rline_points, r_abs, r_err0, r_step_toward, lemma_rline_start, lemma_rline_reaches};

verus! {

/// A canvas of the given pixels with no shaders, whose size matches the pixels and whose
/// byte indices fit `i32`.
pub open spec fn plain(cv: Canvas, pix: Seq<u8>) -> bool {
    &&& cv.shaders.len() == 0
    &&& cv.width <= i32::MAX
    &&& cv.height <= i32::MAX
    &&& pix.len() == cv.width * cv.height * 4
    &&& cv.width * cv.height * 4 <= i32::MAX
}

/// Writing the pixel (x, y) changes that pixel and no other.
pub proof fn lemma_write_pixel_at(pix: Seq<u8>, width: int, height: int, x: int, y: int, c: Color)
    requires
        0 <= x < width,
        0 <= y < height,
        pix.len() == width * height * 4,
    ensures
        write_pixel(pix, (y * width + x) * 4, c).len() == pix.len(),
        forall|px: int, py: int|
            0 <= px < width && 0 <= py < height ==> #[trigger] pixel_at(write_pixel(pix, (y * width + x) * 4, c), width, px, py) == if px
                == x && py == y {
                c
            } else {
                pixel_at(pix, width, px, py)
            },
{
    lemma_index_in_bounds(width, height, x, y);
    assert forall|px: int, py: int| 0 <= px < width && 0 <= py < height implies #[trigger] pixel_at(
        write_pixel(pix, (y * width + x) * 4, c),
        width,
        px,
        py,
    ) == if px == x && py == y {
        c
    } else {
        pixel_at(pix, width, px, py)
    } by {
        lemma_index_in_bounds(width, height, px, py);
        if py * width + px == y * width + x {
            lemma_index_injective(width, px, py, x, y);
        }
    }
}

/// Filling a row of a canvas without shaders sets the pixels of that row segment and no
/// other, and never fails.
pub proof fn lemma_fill_row_plain(cv: Canvas, pix: Seq<u8>, y: int, x0: int, x1: int, c: Color)
    requires
        plain(cv, pix),
        0 <= x0,
        x1 <= cv.width,
        0 <= y < cv.height,
    ensures
        cv.plot_seq_req(pix, row_dabs(y, x0, x1, solid(c)), false),
        cv.plot_seq(pix, row_dabs(y, x0, x1, solid(c)), false).len() == pix.len(),
        forall|px: int, py: int|
            0 <= px < cv.width && 0 <= py < cv.height ==> #[trigger] pixel_at(
                cv.plot_seq(pix, row_dabs(y, x0, x1, solid(c)), false),
                cv.width as int,
                px,
                py,
            ) == if py == y && x0 <= px < x1 {
                c
            } else {
                pixel_at(pix, cv.width as int, px, py)
            },
    decreases x1 - x0,
{
    let w = cv.width as int;
    if x1 <= x0 {
    } else {
        lemma_fill_row_plain(cv, pix, y, x0, x1 - 1, c);
        let prev = row_dabs(y, x0, x1 - 1, solid(c));
        let mid = cv.plot_seq(pix, prev, false);
        let d: Dab = ((x1 - 1) as i32, y as i32, c);
        assert(row_dabs(y, x0, x1, solid(c)) == prev.push(d));
        assert(prev.push(d).drop_last() =~= prev);
        lemma_index_in_bounds(w, cv.height as int, x1 - 1, y);
        assert(cv.shade(mid, d) == d);
        assert(cv.poke_req(x1 - 1, y));
        lemma_write_pixel_at(mid, w, cv.height as int, x1 - 1, y, c);
    }
}

/// Filling a rectangle of a canvas without shaders sets the pixels of the rectangle and no
/// other, and never fails.
pub proof fn lemma_fill_rect_plain(cv: Canvas, pix: Seq<u8>, y0: int, y1: int, x0: int, x1: int, c: Color)
    requires
        plain(cv, pix),
        0 <= x0,
        x1 <= cv.width,
        0 <= y0,
        y1 <= cv.height,
    ensures
        cv.plot_seq_req(pix, region_dabs(y0, y1, x0, x1, solid(c)), false),
        cv.plot_seq(pix, region_dabs(y0, y1, x0, x1, solid(c)), false).len() == pix.len(),
        forall|px: int, py: int|
            0 <= px < cv.width && 0 <= py < cv.height ==> #[trigger] pixel_at(
                cv.plot_seq(pix, region_dabs(y0, y1, x0, x1, solid(c)), false),
                cv.width as int,
                px,
                py,
            ) == if y0 <= py < y1 && x0 <= px < x1 {
                c
            } else {
                pixel_at(pix, cv.width as int, px, py)
            },
    decreases y1 - y0,
{
    if y1 <= y0 {
    } else {
        lemma_fill_rect_plain(cv, pix, y0, y1 - 1, x0, x1, c);
        let prev = region_dabs(y0, y1 - 1, x0, x1, solid(c));
        let mid = cv.plot_seq(pix, prev, false);
        lemma_fill_row_plain(cv, mid, y1 - 1, x0, x1, c);
        lemma_plot_seq_concat(cv, pix, prev, row_dabs(y1 - 1, x0, x1, solid(c)), false);
    }
}

/// Reading a pixel back after setting it gives the color that was set, and every other
/// pixel reads as before; with drawing disabled, or outside the canvas, setting a pixel
/// changes nothing.
pub proof fn law_pget_after_pset(cv: Canvas, pix: Seq<u8>, x: int, y: int, c: Color)
    requires
        pix.len() == cv.width * cv.height * 4,
    ensures
        cv.pset_spec(pix, x, y, c).len() == pix.len(),
        cv.drawing && cv.in_bounds(x, y) ==> cv.pget_spec(cv.pset_spec(pix, x, y, c), x, y) == c,
        forall|px: int, py: int|
            cv.in_bounds(px, py) && (px != x || py != y) ==> #[trigger] cv.pget_spec(cv.pset_spec(pix, x, y, c), px, py)
                == cv.pget_spec(pix, px, py),
        !cv.drawing || !cv.in_bounds(x, y) ==> cv.pset_spec(pix, x, y, c) == pix,
{
    if cv.drawing && cv.in_bounds(x, y) {
        lemma_write_pixel_at(pix, cv.width as int, cv.height as int, x, y, c);
        assert forall|px: int, py: int| cv.in_bounds(px, py) && (px != x || py != y) implies #[trigger] cv.pget_spec(
            cv.pset_spec(pix, x, y, c),
            px,
            py,
        ) == cv.pget_spec(pix, px, py) by {
            assert(pixel_at(write_pixel(pix, (y * cv.width + x) * 4, c), cv.width as int, px, py) == pixel_at(pix, cv.width as int, px, py));
        }
        assert(pixel_at(write_pixel(pix, (y * cv.width + x) * 4, c), cv.width as int, x, y) == c);
    }
}

/// After the buffer is cleared to a color, every pixel reads as that color.
pub proof fn law_clear_color_reads_back(cv: Canvas, pix: Seq<u8>, c: Color, x: int, y: int)
    requires
        pix.len() == cv.width * cv.height * 4,
        filled_with(pix, c),
        cv.in_bounds(x, y),
    ensures
        cv.pget_spec(pix, x, y) == c,
{
    lemma_index_in_bounds(cv.width as int, cv.height as int, x, y);
    let i = cv.index_of(x, y);
    assert(i % 4 == 0);
    assert((i + 1) % 4 == 1);
    assert((i + 2) % 4 == 2);
    assert((i + 3) % 4 == 3);
    assert(pix[i] == c.r);
    assert(pix[i + 1] == c.g);
    assert(pix[i + 2] == c.b);
    assert(pix[i + 3] == c.a);
}

/// A filled rectangle drawn into a buffer without shaders can always be drawn, sets every
/// pixel of the rectangle clamped to the buffer to its color and leaves the other pixels
/// as they were.
pub proof fn law_filled_rectangle(b: Buffer, x: int, y: int, w: int, h: int, c: Color)
    requires
        b.wf(),
        b.shader_stack@.len() == 0,
        b.width * b.height * 4 <= i32::MAX,
        fits_i32(x + w),
        fits_i32(y + h),
    ensures
        rect_req(b, true, x, y, w, h, c),
        rect_result(b, true, x, y, w, h, c).len() == b.color@.len(),
        forall|px: int, py: int|
            0 <= px < b.width && 0 <= py < b.height ==> #[trigger] pixel_at(rect_result(b, true, x, y, w, h, c), b.width as int, px, py)
                == if clamp_spec(x, 0, b.width as int) <= px < clamp_spec(x + w, 0, b.width as int) && clamp_spec(
                y,
                0,
                b.height as int,
            ) <= py < clamp_spec(y + h, 0, b.height as int) {
                c
            } else {
                pixel_at(b.color@, b.width as int, px, py)
            },
{
    let cv = b.canvas();
    assert(plain(cv, b.color@));
    lemma_fill_rect_plain(
        cv,
        b.color@,
        clamp_spec(y, 0, b.height as int),
        clamp_spec(y + h, 0, b.height as int),
        clamp_spec(x, 0, b.width as int),
        clamp_spec(x + w, 0, b.width as int),
        c,
    );
    assert(rect_fill_dabs(cv, x, y, w, h, c) == region_dabs(
        clamp_spec(y, 0, b.height as int),
        clamp_spec(y + h, 0, b.height as int),
        clamp_spec(x, 0, b.width as int),
        clamp_spec(x + w, 0, b.width as int),
        solid(c),
    ));
}

/// Inverting a color twice gives the color back.
pub proof fn law_inverted_twice(c: Color)
    ensures
        inverted_spec(inverted_spec(c)) == c,
{
}

/// Multiplying a color by opaque white leaves it unchanged.
pub proof fn law_mul_white(c: Color)
    ensures
        mul_spec(c, Color { r: 255, g: 255, b: 255, a: 255 }) == c,
{
    assert forall|v: int| 0 <= v <= 255 implies #[trigger] mul_channel(v, 255) == v by {
        assert((v * 255 + 255) / 256 == v) by (nonlinear_arith)
            requires
                0 <= v <= 255,
        ;
    }
    assert(mul_channel(c.r as int, 255) == c.r);
    assert(mul_channel(c.g as int, 255) == c.g);
    assert(mul_channel(c.b as int, 255) == c.b);
}

/// Subtracting a color from a sum that did not overflow gives the other summand back.
pub proof fn law_add_then_sub(a: Color, b: Color)
    requires
        add_fits(a, b),
    ensures
        sub_fits(add_spec_color(a, b), b),
        sub_spec_color(add_spec_color(a, b), b) == a,
{
}

/// The twice-signed area changes sign when the last two points change places.
proof fn lemma_sign3_swap(p1x: int, p1y: int, p2x: int, p2y: int, p3x: int, p3y: int)
    ensures
        sign3_spec(p1x, p1y, p2x, p2y, p3x, p3y) == -sign3_spec(p1x, p1y, p3x, p3y, p2x, p2y),
{
    assert((p1x - p3x) * (p2y - p3y) - (p2x - p3x) * (p1y - p3y) == -((p1x - p2x) * (p3y - p2y) - (p3x - p2x) * (p1y - p2y)))
        by (nonlinear_arith);
}

/// Whether a point lies in a triangle does not depend on the order of its corners, and
/// each corner lies in the triangle.
pub proof fn law_point_in_triangle_corners(px: int, py: int, x0: int, y0: int, x1: int, y1: int, x2: int, y2: int)
    ensures
        in_triangle_spec(px, py, x0, y0, x1, y1, x2, y2) == in_triangle_spec(px, py, x1, y1, x2, y2, x0, y0),
        in_triangle_spec(px, py, x0, y0, x1, y1, x2, y2) == in_triangle_spec(px, py, x0, y0, x2, y2, x1, y1),
        in_triangle_spec(x0, y0, x0, y0, x1, y1, x2, y2),
        in_triangle_spec(x1, y1, x0, y0, x1, y1, x2, y2),
        in_triangle_spec(x2, y2, x0, y0, x1, y1, x2, y2),
{
    lemma_sign3_swap(px, py, x0, y0, x1, y1);
    lemma_sign3_swap(px, py, x1, y1, x2, y2);
    lemma_sign3_swap(px, py, x2, y2, x0, y0);
    assert(sign3_spec(x0, y0, x0, y0, x1, y1) == 0) by (nonlinear_arith);
    assert(sign3_spec(x0, y0, x2, y2, x0, y0) == 0) by (nonlinear_arith);
    assert(sign3_spec(x1, y1, x0, y0, x1, y1) == 0) by (nonlinear_arith);
    assert(sign3_spec(x1, y1, x1, y1, x2, y2) == 0) by (nonlinear_arith);
    assert(sign3_spec(x2, y2, x1, y1, x2, y2) == 0) by (nonlinear_arith);
    assert(sign3_spec(x2, y2, x2, y2, x0, y0) == 0) by (nonlinear_arith);
}

/// Two points are neighbours or the same: they differ by at most one on each axis.
pub open spec fn adjacent(p: (int, int), q: (int, int)) -> bool {
    abs_int(p.0 - q.0) <= 1 && abs_int(p.1 - q.1) <= 1
}

/// A Bresenham state that is on its way to (x1, y1): `rx` and `ry` steps are left on the
/// two axes, within the distances `dx` and `-dy`, and the error term is the one that the
/// steps taken so far give.
pub open spec fn on_track(x: int, y: int, err: int, x1: int, y1: int, dx: int, dy: int, sx: int, sy: int) -> bool {
    let rx = (x1 - x) * sx;
    let ry = (y1 - y) * sy;
    &&& sx == 1 || sx == -1
    &&& sy == 1 || sy == -1
    &&& 0 <= rx <= dx
    &&& 0 <= ry <= -dy
    &&& err == dx + dy - dy * rx - dx * ry
}

/// From a state on its way, the line reaches (x1, y1) through neighbouring points, with
/// at most one point per step left.
proof fn lemma_line_from_reaches(x: int, y: int, err: int, x1: int, y1: int, dx: int, dy: int, sx: int, sy: int, fuel: nat)
    requires
        on_track(x, y, err, x1, y1, dx, dy, sx, sy),
        fuel >= (x1 - x) * sx + (y1 - y) * sy,
    ensures
        line_from(x, y, err, x1, y1, dx, dy, sx, sy, fuel).last() == (x1, y1),
        line_from(x, y, err, x1, y1, dx, dy, sx, sy, fuel).len() <= (x1 - x) * sx + (y1 - y) * sy + 1,
        forall|i: int|
            0 <= i < line_from(x, y, err, x1, y1, dx, dy, sx, sy, fuel).len() - 1 ==> adjacent(
                #[trigger] line_from(x, y, err, x1, y1, dx, dy, sx, sy, fuel)[i],
                line_from(x, y, err, x1, y1, dx, dy, sx, sy, fuel)[i + 1],
            ),
    decreases fuel,
{
    let rx = (x1 - x) * sx;
    let ry = (y1 - y) * sy;
    assert(x == x1 <==> rx == 0) by (nonlinear_arith)
        requires
            rx == (x1 - x) * sx,
            sx == 1 || sx == -1,
    ;
    assert(y == y1 <==> ry == 0) by (nonlinear_arith)
        requires
            ry == (y1 - y) * sy,
            sy == 1 || sy == -1,
    ;
    if (x == x1 && y == y1) || fuel == 0 {
        assert(x == x1 && y == y1);
    } else {
        let e2 = 2 * err;
        if rx == 0 {
            assert(e2 < dy) by (nonlinear_arith)
                requires
                    err == dx + dy - dy * rx - dx * ry,
                    rx == 0,
                    1 <= ry <= -dy,
                    dx >= 0,
                    e2 == 2 * err,
            ;
        }
        if ry == 0 {
            assert(e2 > dx) by (nonlinear_arith)
                requires
                    err == dx + dy - dy * rx - dx * ry,
                    ry == 0,
                    1 <= rx <= dx,
                    dy <= 0,
                    e2 == 2 * err,
            ;
        }
        let xstep = e2 >= dy;
        let ystep = e2 <= dx;
        assert(xstep || ystep);
        let nx = if xstep {
            x + sx
        } else {
            x
        };
        let ny = if ystep {
            y + sy
        } else {
            y
        };
        let nerr = err + (if xstep {
            dy
        } else {
            0
        }) + (if ystep {
            dx
        } else {
            0
        });
        let nrx = if xstep {
            rx - 1
        } else {
            rx
        };
        let nry = if ystep {
            ry - 1
        } else {
            ry
        };
        assert((x1 - nx) * sx == nrx) by (nonlinear_arith)
            requires
                rx == (x1 - x) * sx,
                sx == 1 || sx == -1,
                nx == if xstep {
                    x + sx
                } else {
                    x
                },
                nrx == if xstep {
                    rx - 1
                } else {
                    rx
                },
        ;
        assert((y1 - ny) * sy == nry) by (nonlinear_arith)
            requires
                ry == (y1 - y) * sy,
                sy == 1 || sy == -1,
                ny == if ystep {
                    y + sy
                } else {
                    y
                },
                nry == if ystep {
                    ry - 1
                } else {
                    ry
                },
        ;
        assert(nerr == dx + dy - dy * nrx - dx * nry) by (nonlinear_arith)
            requires
                err == dx + dy - dy * rx - dx * ry,
                nerr == err + (if xstep {
                    dy
                } else {
                    0
                }) + (if ystep {
                    dx
                } else {
                    0
                }),
                nrx == if xstep {
                    rx - 1
                } else {
                    rx
                },
                nry == if ystep {
                    ry - 1
                } else {
                    ry
                },
        ;
        assert(on_track(nx, ny, nerr, x1, y1, dx, dy, sx, sy));
        let f1 = (fuel - 1) as nat;
        lemma_line_from_reaches(nx, ny, nerr, x1, y1, dx, dy, sx, sy, f1);
        lemma_line_from_first(nx, ny, nerr, x1, y1, dx, dy, sx, sy, f1);
        let rest = line_from(nx, ny, nerr, x1, y1, dx, dy, sx, sy, f1);
        let all = line_from(x, y, err, x1, y1, dx, dy, sx, sy, fuel);
        if ystep {
            assert(all == seq![(x, y)] + rest);
        } else {
            let nerr2 = if xstep {
                err + dy
            } else {
                err
            };
            assert(nerr2 == nerr);
            assert(all == seq![(x, y)] + rest);
        }
        assert(adjacent((x, y), (nx, ny)));
        assert forall|i: int| 0 <= i < all.len() - 1 implies adjacent(#[trigger] all[i], all[i + 1]) by {
            if i > 0 {
                assert(all[i] == rest[i - 1]);
                assert(all[i + 1] == rest[i]);
            }
        }
    }
}

/// A Bresenham line, as `pline` draws it and `cline` counts it, starts at its first point,
/// ends at its second point, moves between neighbouring points, and has at most one point
/// more than the two distances together.
pub proof fn law_line_ends(x0: int, y0: int, x1: int, y1: int)
    ensures
        line_points(x0, y0, x1, y1)[0] == (x0, y0),
        line_points(x0, y0, x1, y1).last() == (x1, y1),
        line_points(x0, y0, x1, y1).len() <= abs_int(x1 - x0) + abs_int(y1 - y0) + 1,
        forall|i: int|
            0 <= i < line_points(x0, y0, x1, y1).len() - 1 ==> adjacent(
                #[trigger] line_points(x0, y0, x1, y1)[i],
                line_points(x0, y0, x1, y1)[i + 1],
            ),
{
    let dx = abs_int(x1 - x0);
    let dy = -abs_int(y1 - y0);
    let sx = step_toward(x0, x1);
    let sy = step_toward(y0, y1);
    assert((x1 - x0) * sx == dx) by (nonlinear_arith)
        requires
            sx == step_toward(x0, x1),
            dx == abs_int(x1 - x0),
    ;
    assert((y1 - y0) * sy == -dy) by (nonlinear_arith)
        requires
            sy == step_toward(y0, y1),
            dy == -abs_int(y1 - y0),
    ;
    assert(dx + dy == dx + dy - dy * dx - dx * (-dy)) by (nonlinear_arith);
    lemma_line_from_first(x0, y0, dx + dy, x1, y1, dx, dy, sx, sy, (dx - dy) as nat);
    lemma_line_from_reaches(x0, y0, dx + dy, x1, y1, dx, dy, sx, sy, (dx - dy) as nat);
}

/// A Bresenham state on its way to (x1, y1) that keeps to the side of its longer axis:
/// `h` measures how far the steps left lean from the straight line, and stays within half
/// the longer distance.
pub open spec fn major_track(x: int, y: int, err: int, x1: int, y1: int, dx: int, dy: int, sx: int, sy: int) -> bool {
    let rx = (x1 - x) * sx;
    let ry = (y1 - y) * sy;
    let h = dx * ry + dy * rx;
    &&& on_track(x, y, err, x1, y1, dx, dy, sx, sy)
    &&& {
        ||| rx == 0 && ry == 0
        ||| dx >= -dy && dx > 0 && -dx <= 2 * h < dx
        ||| -dy >= dx && dy < 0 && dy < 2 * h <= -dy
    }
}

/// From a state that keeps to its longer axis, the line has one point more than the
/// longer of the two distances left.
proof fn lemma_line_from_count(x: int, y: int, err: int, x1: int, y1: int, dx: int, dy: int, sx: int, sy: int, fuel: nat)
    requires
        major_track(x, y, err, x1, y1, dx, dy, sx, sy),
        fuel >= (x1 - x) * sx + (y1 - y) * sy,
    ensures
        line_from(x, y, err, x1, y1, dx, dy, sx, sy, fuel).len() == if (x1 - x) * sx >= (y1 - y) * sy {
            (x1 - x) * sx + 1
        } else {
            (y1 - y) * sy + 1
        },
    decreases fuel,
{
    let rx = (x1 - x) * sx;
    let ry = (y1 - y) * sy;
    let h = dx * ry + dy * rx;
    assert(x == x1 <==> rx == 0) by (nonlinear_arith)
        requires
            rx == (x1 - x) * sx,
            sx == 1 || sx == -1,
    ;
    assert(y == y1 <==> ry == 0) by (nonlinear_arith)
        requires
            ry == (y1 - y) * sy,
            sy == 1 || sy == -1,
    ;
    if (x == x1 && y == y1) || fuel == 0 {
        assert(x == x1 && y == y1);
    } else {
        let e2 = 2 * err;
        assert(err == dx + dy - h) by (nonlinear_arith)
            requires
                err == dx + dy - dy * rx - dx * ry,
                h == dx * ry + dy * rx,
        ;
        let xmaj = dx >= -dy && dx > 0 && -dx <= 2 * h < dx;
        if xmaj {
            assert(ry <= rx) by (nonlinear_arith)
                requires
                    h == dx * ry + dy * rx,
                    2 * h < dx,
                    dx >= -dy,
                    dx > 0,
                    0 <= rx,
                    0 <= ry,
            ;
        } else {
            assert(rx <= ry) by (nonlinear_arith)
                requires
                    h == dx * ry + dy * rx,
                    dy < 2 * h,
                    -dy >= dx,
                    dy < 0,
                    0 <= rx,
                    0 <= ry,
                    !(rx == 0 && ry == 0),
            ;
        }
        if ry == 0 {
            assert(e2 > dx) by (nonlinear_arith)
                requires
                    err == dx + dy - dy * rx - dx * ry,
                    ry == 0,
                    1 <= rx <= dx,
                    dy <= 0,
                    e2 == 2 * err,
            ;
        }
        if rx == 0 {
            assert(e2 < dy) by (nonlinear_arith)
                requires
                    err == dx + dy - dy * rx - dx * ry,
                    rx == 0,
                    1 <= ry <= -dy,
                    dx >= 0,
                    e2 == 2 * err,
            ;
        }
        let xstep = e2 >= dy;
        let ystep = e2 <= dx;
        if xmaj {
            assert(xstep);
        } else {
            assert(ystep);
        }
        let nx = if xstep {
            x + sx
        } else {
            x
        };
        let ny = if ystep {
            y + sy
        } else {
            y
        };
        let nerr = err + (if xstep {
            dy
        } else {
            0
        }) + (if ystep {
            dx
        } else {
            0
        });
        let nrx = if xstep {
            rx - 1
        } else {
            rx
        };
        let nry = if ystep {
            ry - 1
        } else {
            ry
        };
        assert((x1 - nx) * sx == nrx) by (nonlinear_arith)
            requires
                rx == (x1 - x) * sx,
                sx == 1 || sx == -1,
                nx == if xstep {
                    x + sx
                } else {
                    x
                },
                nrx == if xstep {
                    rx - 1
                } else {
                    rx
                },
        ;
        assert((y1 - ny) * sy == nry) by (nonlinear_arith)
            requires
                ry == (y1 - y) * sy,
                sy == 1 || sy == -1,
                ny == if ystep {
                    y + sy
                } else {
                    y
                },
                nry == if ystep {
                    ry - 1
                } else {
                    ry
                },
        ;
        assert(nerr == dx + dy - dy * nrx - dx * nry) by (nonlinear_arith)
            requires
                err == dx + dy - dy * rx - dx * ry,
                nerr == err + (if xstep {
                    dy
                } else {
                    0
                }) + (if ystep {
                    dx
                } else {
                    0
                }),
                nrx == if xstep {
                    rx - 1
                } else {
                    rx
                },
                nry == if ystep {
                    ry - 1
                } else {
                    ry
                },
        ;
        let nh = dx * nry + dy * nrx;
        assert(nh == h - (if xstep {
            dy
        } else {
            0
        }) - (if ystep {
            dx
        } else {
            0
        })) by (nonlinear_arith)
            requires
                h == dx * ry + dy * rx,
                nh == dx * nry + dy * nrx,
                nrx == if xstep {
                    rx - 1
                } else {
                    rx
                },
                nry == if ystep {
                    ry - 1
                } else {
                    ry
                },
        ;
        assert(on_track(nx, ny, nerr, x1, y1, dx, dy, sx, sy));
        if !(nrx == 0 && nry == 0) {
            if xmaj {
                assert(-dx <= 2 * nh < dx);
            } else {
                assert(dy < 2 * nh <= -dy);
            }
        }
        assert(major_track(nx, ny, nerr, x1, y1, dx, dy, sx, sy));
        if xmaj && !(nrx == 0 && nry == 0) {
            assert(nry <= nrx) by (nonlinear_arith)
                requires
                    nh == dx * nry + dy * nrx,
                    2 * nh < dx,
                    dx >= -dy,
                    dx > 0,
                    0 <= nrx,
                    0 <= nry,
            ;
        }
        if !xmaj && !(nrx == 0 && nry == 0) {
            assert(nrx <= nry) by (nonlinear_arith)
                requires
                    nh == dx * nry + dy * nrx,
                    dy < 2 * nh,
                    -dy >= dx,
                    dy < 0,
                    0 <= nrx,
                    0 <= nry,
                    !(nrx == 0 && nry == 0),
            ;
        }
        let f1 = (fuel - 1) as nat;
        lemma_line_from_count(nx, ny, nerr, x1, y1, dx, dy, sx, sy, f1);
        let rest = line_from(nx, ny, nerr, x1, y1, dx, dy, sx, sy, f1);
        let all = line_from(x, y, err, x1, y1, dx, dy, sx, sy, fuel);
        if ystep {
            assert(all == seq![(x, y)] + rest);
        } else {
            let nerr2 = if xstep {
                err + dy
            } else {
                err
            };
            assert(nerr2 == nerr);
            assert(all == seq![(x, y)] + rest);
        }
    }
}

/// A Bresenham line, as `pline` draws it and `cline` counts it, has one point more than
/// the longer of its two distances: max(|x1 - x0|, |y1 - y0|) + 1.
pub proof fn law_line_count(x0: int, y0: int, x1: int, y1: int)
    ensures
        line_points(x0, y0, x1, y1).len() == if abs_int(x1 - x0) >= abs_int(y1 - y0) {
            abs_int(x1 - x0) + 1
        } else {
            abs_int(y1 - y0) + 1
        },
{
    let dx = abs_int(x1 - x0);
    let dy = -abs_int(y1 - y0);
    let sx = step_toward(x0, x1);
    let sy = step_toward(y0, y1);
    assert((x1 - x0) * sx == dx) by (nonlinear_arith)
        requires
            sx == step_toward(x0, x1),
            dx == abs_int(x1 - x0),
    ;
    assert((y1 - y0) * sy == -dy) by (nonlinear_arith)
        requires
            sy == step_toward(y0, y1),
            dy == -abs_int(y1 - y0),
    ;
    assert(dx + dy == dx + dy - dy * dx - dx * (-dy)) by (nonlinear_arith);
    assert(dx * (-dy) + dy * dx == 0) by (nonlinear_arith);
    assert(major_track(x0, y0, dx + dy, x1, y1, dx, dy, sx, sy));
    lemma_line_from_count(x0, y0, dx + dy, x1, y1, dx, dy, sx, sy, (dx - dy) as nat);
}

/// Every `pset` of a rasterizer counts once, and once more when it stores a pixel: after
/// a run of dabs the count has grown by at least their number and at most twice it.
pub proof fn law_rasterizer_count(rc: RCanvas, st: (Seq<u8>, int), ds: Seq<RDab>)
    requires
        st.0.len() == rc.width * rc.height * 4,
    ensures
        st.1 + ds.len() <= rc.pset_seq(st, ds).1 <= st.1 + 2 * ds.len(),
        rc.pset_seq(st, ds).0.len() == st.0.len(),
    decreases ds.len(),
{
    if ds.len() > 0 {
        law_rasterizer_count(rc, st, ds.drop_last());
        let p = rc.pset_seq(st, ds.drop_last());
        law_rasterizer_pget_after_pset(rc, p.0, p.1, ds.last());
    }
}

/// After a rasterizer sets a pixel on its buffer, that pixel reads back as the color its
/// operation stores (or as before where the operation skips it), and every other pixel
/// reads as before; a pixel off the buffer changes nothing but the count.
pub proof fn law_rasterizer_pget_after_pset(rc: RCanvas, pix: Seq<u8>, count: int, d: RDab)
    requires
        pix.len() == rc.width * rc.height * 4,
    ensures
        rc.pset_spec(pix, count, d).0.len() == pix.len(),
        !rc.in_bounds(d.0, d.1) ==> rc.pset_spec(pix, count, d) == (pix, count + 1),
        rc.in_bounds(d.0, d.1) && op_color(rc.op, bg_at(pix, rc.index_of(d.0, d.1)), d.2, rc.tint, rc.opacity) is Some ==> pixel_at(
            rc.pset_spec(pix, count, d).0,
            rc.width as int,
            d.0,
            d.1,
        ) == op_color(rc.op, bg_at(pix, rc.index_of(d.0, d.1)), d.2, rc.tint, rc.opacity).unwrap() && rc.pset_spec(pix, count, d).1
            == count + 2,
        rc.in_bounds(d.0, d.1) && op_color(rc.op, bg_at(pix, rc.index_of(d.0, d.1)), d.2, rc.tint, rc.opacity) is None ==> rc.pset_spec(
            pix,
            count,
            d,
        ) == (pix, count + 1),
        forall|px: int, py: int|
            rc.in_bounds(px, py) && (px != d.0 || py != d.1) ==> #[trigger] pixel_at(rc.pset_spec(pix, count, d).0, rc.width as int, px, py)
                == pixel_at(pix, rc.width as int, px, py),
{
    if rc.in_bounds(d.0, d.1) {
        let o = op_color(rc.op, bg_at(pix, rc.index_of(d.0, d.1)), d.2, rc.tint, rc.opacity);
        if o is Some {
            lemma_write_pixel_at(pix, rc.width as int, rc.height as int, d.0, d.1, o.unwrap());
        }
    }
}

/// A rasterizer line, as `pline` draws it and `cline` returns it, starts at its first
/// point, ends at its second point, moves between neighbouring points, and has at most one
/// point more than the two distances together.
pub proof fn law_rasterizer_line_ends(x0: int, y0: int, x1: int, y1: int)
    ensures
        rline_points(x0, y0, x1, y1)[0] == (x0, y0),
        rline_points(x0, y0, x1, y1).last() == (x1, y1),
        rline_points(x0, y0, x1, y1).len() <= r_abs(x1 - x0) + r_abs(y1 - y0) + 1,
        forall|i: int|
            0 <= i < rline_points(x0, y0, x1, y1).len() - 1 ==> {
                let p = #[trigger] rline_points(x0, y0, x1, y1)[i];
                let q = rline_points(x0, y0, x1, y1)[i + 1];
                r_abs(q.0 - p.0) <= 1 && r_abs(q.1 - p.1) <= 1
            },
{
    let dx = r_abs(x1 - x0);
    let dy = r_abs(y1 - y0);
    lemma_rline_start(x0, y0, x1, y1);
    lemma_rline_reaches(x0, y0, r_err0(dx, dy), x1, y1, dx, dy, r_step_toward(x0, x1), r_step_toward(y0, y1), (dx + dy) as nat);
}

/// The pixel (px, py) lies in the rectangle that the partition `p` covers.
pub open spec fn in_cell(px: int, py: int, p: Buffer) -> bool {
    p.offset_x <= px < p.offset_x + p.width && p.offset_y <= py < p.offset_y + p.height
}

/// Copying partitions back keeps the size of the pixels.
proof fn lemma_blit_back_len(pix: Seq<u8>, w: int, h: int, parts: Seq<Buffer>)
    requires
        pix.len() == w * h * 4,
        forall|j: int| 0 <= j < parts.len() ==> (#[trigger] parts[j]).wf(),
    ensures
        blit_back(pix, w, h, parts).len() == pix.len(),
    decreases parts.len(),
{
    if parts.len() > 0 {
        let q = parts.drop_last();
        assert forall|j: int| 0 <= j < q.len() implies (#[trigger] q[j]).wf() by {
            assert(q[j] == parts[j]);
        }
        lemma_blit_back_len(pix, w, h, q);
        let last = parts.last();
        assert(last == parts[parts.len() - 1]);
        if !(w == last.width && h == last.height) && crate::compose::blit_fits_dims(w, h, last, last.offset_x as int, last.offset_y as int) {
        }
    }
}

/// After the partitions are copied back in turn, a pixel that lies in exactly one of them
/// is that partition's pixel.
proof fn lemma_blit_back_cell(pix: Seq<u8>, w: int, h: int, parts: Seq<Buffer>, k: int, px: int, py: int)
    requires
        pix.len() == w * h * 4,
        0 <= px < w,
        0 <= py < h,
        0 <= k < parts.len(),
        forall|j: int|
            0 <= j < parts.len() ==> (#[trigger] parts[j]).wf() && parts[j].offset_x + parts[j].width <= w && parts[j].offset_y
                + parts[j].height <= h,
        in_cell(px, py, parts[k]),
        forall|j: int| 0 <= j < parts.len() && j != k ==> !in_cell(px, py, #[trigger] parts[j]),
    ensures
        pixel_at(blit_back(pix, w, h, parts), w, px, py) == pixel_at(
            parts[k].color@,
            parts[k].width as int,
            px - parts[k].offset_x,
            py - parts[k].offset_y,
        ),
    decreases parts.len(),
{
    let n = parts.len();
    let q = parts.drop_last();
    let last = parts[n - 1];
    assert(parts.last() == last);
    assert forall|j: int| 0 <= j < q.len() implies (#[trigger] q[j]).wf() by {
        assert(q[j] == parts[j]);
    }
    lemma_blit_back_len(pix, w, h, q);
    let prev = blit_back(pix, w, h, q);
    lemma_blit_bytes_pixel(prev, w, h, last, last.offset_x as int, last.offset_y as int, px, py);
    if k == n - 1 {
    } else {
        assert forall|j: int|
            0 <= j < q.len() implies (#[trigger] q[j]).wf() && q[j].offset_x + q[j].width <= w && q[j].offset_y + q[j].height <= h by {
            assert(q[j] == parts[j]);
        }
        assert forall|j: int| 0 <= j < q.len() && j != k implies !in_cell(px, py, #[trigger] q[j]) by {
            assert(q[j] == parts[j]);
        }
        assert(q[k] == parts[k]);
        lemma_blit_back_cell(pix, w, h, q, k, px, py);
        assert(!in_cell(px, py, parts[n - 1]));
    }
}

/// The whole buffer and every partition have no shaders, and the byte indices of the
/// whole buffer fit `i32`.
pub open spec fn plain_parts(pb: PartitionedBuffer) -> bool {
    &&& pb.buffer.shader_stack@.len() == 0
    &&& pb.buffer.width * pb.buffer.height * 4 <= i32::MAX
    &&& forall|k: int| 0 <= k < pb.partitions@.len() ==> (#[trigger] pb.partitions@[k]).shader_stack@.len() == 0
}

/// The whole buffer and every partition draw.
pub open spec fn drawing_parts(pb: PartitionedBuffer) -> bool {
    &&& pb.buffer.is_drawing
    &&& forall|k: int| 0 <= k < pb.partitions@.len() ==> (#[trigger] pb.partitions@[k]).is_drawing
}

/// A partition of a buffer laid out as a grid, with no shaders, can hold the pixels of
/// its cell as a canvas without shaders, and lies inside the whole buffer.
proof fn lemma_plain_cell(pb: PartitionedBuffer, k: int)
    requires
        pb.gridded(),
        plain_parts(pb),
        0 <= k < pb.partitions@.len(),
    ensures
        plain(pb.partitions@[k].canvas(), cell_pixels(pb.buffer.color@, pb.buffer.width as int, pb.partitions@[k])),
        pb.partitions@[k].wf(),
        pb.partitions@[k].offset_x + pb.partitions@[k].width <= pb.buffer.width,
        pb.partitions@[k].offset_y + pb.partitions@[k].height <= pb.buffer.height,
{
    law_partitions_inside(pb);
    let p = pb.partitions@[k];
    let w = pb.buffer.width as int;
    let h = pb.buffer.height as int;
    assert(p.width * p.height * 4 <= w * h * 4) by (nonlinear_arith)
        requires
            0 <= p.width <= w,
            0 <= p.height <= h,
    ;
}

/// Drawing a filled rectangle into each partition of a buffer laid out as a grid, with no
/// shaders, each partition first refreshed from the whole buffer, and copying the
/// partitions back gives the same pixels as drawing it into the whole buffer: the
/// partitioned rectangle is the rectangle, and the pixels it does not cover keep what the
/// whole buffer held.
pub proof fn law_partitioned_rectangle(pb: PartitionedBuffer, parts: Seq<Buffer>, x: int, y: int, rw: int, rh: int, c: Color)
    requires
        pb.gridded(),
        plain_parts(pb),
        parts.len() == pb.partitions@.len(),
        forall|k: int|
            0 <= k < parts.len() ==> (#[trigger] parts[k]).same_setup(pb.partitions@[k]) && parts[k].color@ == rect_result_on(
                pb.partitions@[k].canvas(),
                cell_pixels(pb.buffer.color@, pb.buffer.width as int, pb.partitions@[k]),
                true,
                x - pb.partitions@[k].offset_x,
                y - pb.partitions@[k].offset_y,
                rw,
                rh,
                c,
            ),
    ensures
        blit_back(pb.buffer.color@, pb.buffer.width as int, pb.buffer.height as int, parts) == rect_result(pb.buffer, true, x, y, rw, rh, c),
{
    let w = pb.buffer.width as int;
    let h = pb.buffer.height as int;
    let cv = pb.buffer.canvas();
    let pix = pb.buffer.color@;
    assert(plain(cv, pix));
    lemma_fill_rect_plain(cv, pix, clamp_spec(y, 0, h), clamp_spec(y + rh, 0, h), clamp_spec(x, 0, w), clamp_spec(x + rw, 0, w), c);
    assert(rect_fill_dabs(cv, x, y, rw, rh, c) == region_dabs(clamp_spec(y, 0, h), clamp_spec(y + rh, 0, h), clamp_spec(x, 0, w), clamp_spec(x + rw, 0, w), solid(c)));
    let direct = rect_result(pb.buffer, true, x, y, rw, rh, c);
    // Each partition, refreshed from its cell, is drawn into with the rectangle at its
    // relative place.
    assert forall|k: int| 0 <= k < parts.len() implies (#[trigger] parts[k]).wf() by {
        let p = pb.partitions@[k];
        let cp = cell_pixels(pix, w, p);
        lemma_plain_cell(pb, k);
        lemma_fill_rect_plain(
            p.canvas(),
            cp,
            clamp_spec(y - p.offset_y, 0, p.height as int),
            clamp_spec(y - p.offset_y + rh, 0, p.height as int),
            clamp_spec(x - p.offset_x, 0, p.width as int),
            clamp_spec(x - p.offset_x + rw, 0, p.width as int),
            c,
        );
        assert(rect_fill_dabs(p.canvas(), x - p.offset_x, y - p.offset_y, rw, rh, c) == region_dabs(
            clamp_spec(y - p.offset_y, 0, p.height as int),
            clamp_spec(y - p.offset_y + rh, 0, p.height as int),
            clamp_spec(x - p.offset_x, 0, p.width as int),
            clamp_spec(x - p.offset_x + rw, 0, p.width as int),
            solid(c),
        ));
    }
    // Pixel by pixel, each partition drew its cell as the whole buffer would.
    assert forall|k: int, lx: int, ly: int|
        0 <= k < parts.len() && 0 <= lx < parts[k].width && 0 <= ly < parts[k].height implies #[trigger] pixel_at(
        parts[k].color@,
        parts[k].width as int,
        lx,
        ly,
    ) == pixel_at(direct, w, parts[k].offset_x + lx, parts[k].offset_y + ly) by {
        let p = pb.partitions@[k];
        let ox = p.offset_x as int;
        let oy = p.offset_y as int;
        let cw = p.width as int;
        let ch = p.height as int;
        let cp = cell_pixels(pix, w, p);
        lemma_plain_cell(pb, k);
        lemma_fill_rect_plain(
            p.canvas(),
            cp,
            clamp_spec(y - oy, 0, ch),
            clamp_spec(y - oy + rh, 0, ch),
            clamp_spec(x - ox, 0, cw),
            clamp_spec(x - ox + rw, 0, cw),
            c,
        );
        assert(rect_fill_dabs(p.canvas(), x - ox, y - oy, rw, rh, c) == region_dabs(
            clamp_spec(y - oy, 0, ch),
            clamp_spec(y - oy + rh, 0, ch),
            clamp_spec(x - ox, 0, cw),
            clamp_spec(x - ox + rw, 0, cw),
            solid(c),
        ));
        lemma_cell_pixel(pix, w, p, lx, ly);
    }
    lemma_grid_copy_back(pb, parts, direct);
}

/// A pixel `p` of a row of `total` pixels split into `n` cells lies in exactly one cell,
/// the one returned.
pub proof fn lemma_cell_find(total: int, n: int, p: int) -> (i: int)
    requires
        1 <= n,
        0 <= p < total,
    ensures
        0 <= i < n,
        forall|j: int|
            0 <= j < n ==> (j * (total / n) <= p < j * (total / n) + #[trigger] cell_len(total, n, j) <==> j == i),
{
    let c = total / n;
    assert(0 <= c && c * n <= total && total < c * n + n) by (nonlinear_arith)
        requires
            c == total / n,
            n >= 1,
            total >= 0,
    {
        vstd::arithmetic::div_mod::lemma_fundamental_div_mod(total, n);
    }
    let i = if c == 0 {
        n - 1
    } else if p / c >= n - 1 {
        n - 1
    } else {
        p / c
    };
    if c > 0 {
        vstd::arithmetic::div_mod::lemma_fundamental_div_mod(p, c);
        assert(0 <= p / c) by (nonlinear_arith)
            requires
                p >= 0,
                c > 0,
        ;
    }
    assert forall|j: int| 0 <= j < n implies (j * c <= p < j * c + #[trigger] cell_len(total, n, j) <==> j == i) by {
        if c == 0 {
            assert(j * c == 0) by (nonlinear_arith)
                requires
                    c == 0,
            ;
        } else {
            let q = p / c;
            assert(p == c * q + p % c && 0 <= p % c < c);
            if j < n - 1 {
                assert(cell_len(total, n, j) == c);
                if j * c <= p && p < j * c + c {
                    vstd::arithmetic::div_mod::lemma_fundamental_div_mod_converse(p, c, j, p - j * c);
                    assert(q == j);
                    assert(i == j);
                }
                if j == i {
                    assert(q == j);
                    assert(j * c <= p < j * c + c) by (nonlinear_arith)
                        requires
                            p == c * q + p % c,
                            0 <= p % c < c,
                            q == j,
                    ;
                }
            } else {
                assert(j == n - 1);
                assert(j * c + cell_len(total, n, j) == total) by (nonlinear_arith)
                    requires
                        j == n - 1,
                        cell_len(total, n, j) == total - (n - 1) * c,
                ;
                if j * c <= p {
                    assert(q >= n - 1) by (nonlinear_arith)
                        requires
                            (n - 1) * c <= p,
                            p == c * q + p % c,
                            0 <= p % c < c,
                            c > 0,
                    ;
                }
                if j == i {
                    assert(q >= n - 1);
                    assert((n - 1) * c <= p) by (nonlinear_arith)
                        requires
                            q >= n - 1,
                            p == c * q + p % c,
                            0 <= p % c,
                            c > 0,
                    ;
                }
            }
        }
    }
    i
}

/// The pixel (px, py) of a buffer laid out as a grid lies in the partition returned, and
/// in no other.
proof fn lemma_cell_of(pb: PartitionedBuffer, px: int, py: int) -> (k: int)
    requires
        pb.gridded(),
        0 <= px < pb.buffer.width,
        0 <= py < pb.buffer.height,
    ensures
        0 <= k < pb.partitions@.len(),
        in_cell(px, py, pb.partitions@[k]),
        forall|j: int| 0 <= j < pb.partitions@.len() && #[trigger] in_cell(px, py, pb.partitions@[j]) ==> j == k,
{
    let w = pb.buffer.width as int;
    let h = pb.buffer.height as int;
    let (nx, ny) = scheme_grid(pb.scheme);
    let parts = pb.partitions@;
    let n = parts.len();
    assert(1 <= nx <= 8 && 1 <= ny <= 8);
    let cx = lemma_cell_find(w, nx, px);
    let cy = lemma_cell_find(h, ny, py);
    let k = cy * nx + cx;
    assert(0 <= k < n) by (nonlinear_arith)
        requires
            k == cy * nx + cx,
            0 <= cx < nx,
            0 <= cy < ny,
            n == nx * ny,
    ;
    vstd::arithmetic::div_mod::lemma_fundamental_div_mod_converse(k, nx, cy, cx);
    assert(grid_cell(parts[k], w, h, nx, ny, k));
    assert forall|j: int| 0 <= j < n && #[trigger] in_cell(px, py, parts[j]) implies j == k by {
        let jx = j % nx;
        let jy = j / nx;
        vstd::arithmetic::div_mod::lemma_fundamental_div_mod(j, nx);
        assert(jy < ny) by (nonlinear_arith)
            requires
                0 <= j < nx * ny,
                jy == j / nx,
                nx >= 1,
        ;
        assert(grid_cell(parts[j], w, h, nx, ny, j));
        assert(jx == cx);
        assert(jy == cy);
        assert(j == jy * nx + jx) by (nonlinear_arith)
            requires
                j == nx * jy + jx,
        ;
    }
    k
}

/// The pixel (px, py) lies in some partition of `pb`.
pub open spec fn in_some_partition(pb: PartitionedBuffer, px: int, py: int) -> bool {
    exists|k: int| 0 <= k < pb.partitions@.len() && #[trigger] in_cell(px, py, pb.partitions@[k])
}

/// The partitions of a buffer laid out as a grid tile it: there is at least one, each lies
/// inside the buffer, and every pixel of the buffer lies in exactly one of them.
pub proof fn law_partitions_tile(pb: PartitionedBuffer)
    requires
        pb.gridded(),
    ensures
        pb.partitions@.len() >= 1,
        pb.laid_out(),
        forall|px: int, py: int|
            0 <= px < pb.buffer.width && 0 <= py < pb.buffer.height ==> #[trigger] in_some_partition(pb, px, py),
        forall|j: int, k: int, px: int, py: int|
            0 <= j < pb.partitions@.len() && 0 <= k < pb.partitions@.len() && #[trigger] in_cell(px, py, pb.partitions@[j])
                && #[trigger] in_cell(px, py, pb.partitions@[k]) ==> j == k,
{
    let (nx, ny) = scheme_grid(pb.scheme);
    assert(nx * ny >= 1) by (nonlinear_arith)
        requires
            1 <= nx,
            1 <= ny,
    ;
    law_partitions_inside(pb);
    assert forall|px: int, py: int| 0 <= px < pb.buffer.width && 0 <= py < pb.buffer.height implies #[trigger] in_some_partition(
        pb,
        px,
        py,
    ) by {
        let k = lemma_cell_of(pb, px, py);
        assert(in_cell(px, py, pb.partitions@[k]));
    }
    assert forall|j: int, k: int, px: int, py: int|
        0 <= j < pb.partitions@.len() && 0 <= k < pb.partitions@.len() && #[trigger] in_cell(px, py, pb.partitions@[j])
            && #[trigger] in_cell(px, py, pb.partitions@[k]) implies j == k by {
        let p = pb.partitions@[j];
        law_partitions_inside(pb);
        assert(0 <= px < pb.buffer.width && 0 <= py < pb.buffer.height);
        let c = lemma_cell_of(pb, px, py);
    }
}

/// Copying back the partitions of a buffer laid out as a grid, each holding in its cell
/// the pixels of `direct`, gives `direct`.
#[verifier::spinoff_prover]
#[verifier::rlimit(40)]
proof fn lemma_grid_copy_back(pb: PartitionedBuffer, parts: Seq<Buffer>, direct: Seq<u8>)
    requires
        pb.gridded(),
        parts.len() == pb.partitions@.len(),
        forall|k: int| 0 <= k < parts.len() ==> (#[trigger] parts[k]).same_setup(pb.partitions@[k]) && parts[k].wf(),
        direct.len() == pb.buffer.color@.len(),
        forall|k: int, lx: int, ly: int|
            0 <= k < parts.len() && 0 <= lx < parts[k].width && 0 <= ly < parts[k].height ==> #[trigger] pixel_at(
                parts[k].color@,
                parts[k].width as int,
                lx,
                ly,
            ) == pixel_at(direct, pb.buffer.width as int, parts[k].offset_x + lx, parts[k].offset_y + ly),
    ensures
        blit_back(pb.buffer.color@, pb.buffer.width as int, pb.buffer.height as int, parts) == direct,
{
    let w = pb.buffer.width as int;
    let h = pb.buffer.height as int;
    let (nx, ny) = scheme_grid(pb.scheme);
    let n = parts.len();
    let pix = pb.buffer.color@;
    assert(1 <= nx <= 8 && 1 <= ny <= 8);
    law_partitions_inside(pb);
    // Every partition is a cell of the grid, inside the buffer.
    assert forall|k: int| 0 <= k < n implies {
        &&& (#[trigger] parts[k]).wf()
        &&& grid_cell(parts[k], w, h, nx, ny, k)
        &&& parts[k].offset_x + parts[k].width <= w
        &&& parts[k].offset_y + parts[k].height <= h
    } by {
        let p = pb.partitions@[k];
        assert(grid_cell(p, w, h, nx, ny, k));
        assert(parts[k].same_setup(p));
    }
    let split = blit_back(pix, w, h, parts);
    lemma_blit_back_len(pix, w, h, parts);
    // Pixel by pixel, the partition that holds the pixel has it as `direct` has.
    assert forall|px: int, py: int| 0 <= px < w && 0 <= py < h implies #[trigger] pixel_at(split, w, px, py) == pixel_at(direct, w, px, py) by {
        let cx = lemma_cell_find(w, nx, px);
        let cy = lemma_cell_find(h, ny, py);
        let k = cy * nx + cx;
        assert(0 <= k < n) by (nonlinear_arith)
            requires
                k == cy * nx + cx,
                0 <= cx < nx,
                0 <= cy < ny,
                n == nx * ny,
        ;
        vstd::arithmetic::div_mod::lemma_fundamental_div_mod_converse(k, nx, cy, cx);
        assert(in_cell(px, py, parts[k]));
        assert forall|j: int| 0 <= j < n && j != k implies !in_cell(px, py, #[trigger] parts[j]) by {
            if in_cell(px, py, parts[j]) {
                let jx = j % nx;
                let jy = j / nx;
                vstd::arithmetic::div_mod::lemma_fundamental_div_mod(j, nx);
                assert(jy < ny) by (nonlinear_arith)
                    requires
                        0 <= j < nx * ny,
                        jy == j / nx,
                        nx >= 1,
                ;
                assert(grid_cell(parts[j], w, h, nx, ny, j));
                assert(jx == cx);
                assert(jy == cy);
                assert(j == jy * nx + jx) by (nonlinear_arith)
                    requires
                        j == nx * jy + jx,
                ;
            }
        }
        lemma_blit_back_cell(pix, w, h, parts, k, px, py);
        let lx = px - parts[k].offset_x;
        let ly = py - parts[k].offset_y;
        assert(pixel_at(parts[k].color@, parts[k].width as int, lx, ly) == pixel_at(direct, w, parts[k].offset_x + lx, parts[k].offset_y + ly));
    }
    assert forall|i: int| 0 <= i < split.len() implies #[trigger] split[i] == direct[i] by {
        lemma_byte_decompose(w, h, i);
        let px = (i / 4) % w;
        let py = (i / 4) / w;
        assert(pixel_at(split, w, px, py) == pixel_at(direct, w, px, py));
        let ch4 = i % 4;
        assert(i == (py * w + px) * 4 + ch4);
    }
    assert(split =~= direct);
}

/// The pixel (px, py) of the pixels `pix` of a canvas `w` pixels wide after the image
/// positions from (lx0, ly0) to (lx1, ly1) of `image` are drawn with `pimg` at (x, y)
/// without shaders: the image pixel that lands there where it was drawn and is not fully
/// transparent, the pixel as it was otherwise.
pub open spec fn image_pixel(pix: Seq<u8>, w: int, image: Buffer, x: int, y: int, ly0: int, ly1: int, lx0: int, lx1: int, px: int, py: int) -> Color {
    let pc = image.canvas().pget_spec(image.color@, px - x, py - y);
    if ly0 <= py - y < ly1 && lx0 <= px - x < lx1 && pc.a > 0 {
        pc
    } else {
        pixel_at(pix, w, px, py)
    }
}

/// Drawing one row segment of an image with `pimg` into a canvas without shaders that is
/// drawing sets each pixel it lands on to the image pixel, and changes no other pixel.
pub proof fn lemma_image_row_plain(cv: Canvas, pix: Seq<u8>, image: Buffer, x: int, y: int, ly: int, lx0: int, lx1: int)
    requires
        cv.shaders.len() == 0,
        cv.drawing,
        pix.len() == cv.width * cv.height * 4,
        image.wf(),
        image_fits(image, x, y),
        0 <= ly < image.height,
        0 <= lx0,
        lx1 <= image.width,
    ensures
        cv.plot_seq(pix, row_dabs(ly, lx0, lx1, image_fill(cv, image, x, y)), true).len() == pix.len(),
        forall|px: int, py: int|
            cv.in_bounds(px, py) ==> #[trigger] pixel_at(cv.plot_seq(pix, row_dabs(ly, lx0, lx1, image_fill(cv, image, x, y)), true), cv.width as int, px, py)
                == image_pixel(pix, cv.width as int, image, x, y, ly, ly + 1, lx0, lx1, px, py),
    decreases lx1 - lx0,
{
    let w = cv.width as int;
    let h = cv.height as int;
    let f = image_fill(cv, image, x, y);
    if lx1 > lx0 {
        lemma_image_row_plain(cv, pix, image, x, y, ly, lx0, lx1 - 1);
        let prev = row_dabs(ly, lx0, lx1 - 1, f);
        let mid = cv.plot_seq(pix, prev, true);
        let qx = x + lx1 - 1;
        let qy = y + ly;
        assert(image.canvas().pget_req(lx1 - 1, ly));
        assert(fits_i32(x + (lx1 - 1)) && fits_i32(y + ly));
        if f(lx1 - 1, ly) is Some {
            let d = f(lx1 - 1, ly).unwrap();
            assert(d.0 as int == qx && d.1 as int == qy);
            assert(row_dabs(ly, lx0, lx1, f) == prev.push(d));
            assert(prev.push(d).drop_last() =~= prev);
            assert(cv.shade(mid, d) == d);
            if cv.in_bounds(qx, qy) {
                lemma_write_pixel_at(mid, w, h, qx, qy, d.2);
            }
        } else {
            assert(row_dabs(ly, lx0, lx1, f) == prev);
        }
    }
}

/// Drawing the rows from `ly0` to `ly1` of an image with `pimg` into a canvas without
/// shaders that is drawing sets each pixel they land on to the image pixel, and changes
/// no other pixel.
pub proof fn lemma_image_region_plain(cv: Canvas, pix: Seq<u8>, image: Buffer, x: int, y: int, ly0: int, ly1: int, lx0: int, lx1: int)
    requires
        cv.shaders.len() == 0,
        cv.drawing,
        pix.len() == cv.width * cv.height * 4,
        image.wf(),
        image_fits(image, x, y),
        0 <= ly0,
        ly1 <= image.height,
        0 <= lx0,
        lx1 <= image.width,
    ensures
        cv.plot_seq(pix, region_dabs(ly0, ly1, lx0, lx1, image_fill(cv, image, x, y)), true).len() == pix.len(),
        forall|px: int, py: int|
            cv.in_bounds(px, py) ==> #[trigger] pixel_at(
                cv.plot_seq(pix, region_dabs(ly0, ly1, lx0, lx1, image_fill(cv, image, x, y)), true),
                cv.width as int,
                px,
                py,
            ) == image_pixel(pix, cv.width as int, image, x, y, ly0, ly1, lx0, lx1, px, py),
    decreases ly1 - ly0,
{
    let f = image_fill(cv, image, x, y);
    if ly1 > ly0 {
        lemma_image_region_plain(cv, pix, image, x, y, ly0, ly1 - 1, lx0, lx1);
        let prev = region_dabs(ly0, ly1 - 1, lx0, lx1, f);
        let mid = cv.plot_seq(pix, prev, true);
        lemma_image_row_plain(cv, mid, image, x, y, ly1 - 1, lx0, lx1);
        lemma_plot_seq_concat(cv, pix, prev, row_dabs(ly1 - 1, lx0, lx1, f), true);
    }
}

/// Drawing an image into each partition of a buffer laid out as a grid, with no shaders
/// and drawing, each partition first refreshed from the whole buffer, and copying the
/// partitions back gives the same pixels as drawing it into the whole buffer: the
/// partitioned image is the image, and the pixels it does not cover keep what the whole
/// buffer held.
pub proof fn law_partitioned_image(pb: PartitionedBuffer, parts: Seq<Buffer>, image: Buffer, x: int, y: int)
    requires
        pb.gridded(),
        plain_parts(pb),
        drawing_parts(pb),
        image.wf(),
        image_fits(image, x, y),
        parts.len() == pb.partitions@.len(),
        forall|k: int|
            0 <= k < parts.len() ==> image_fits(image, x - (#[trigger] pb.partitions@[k]).offset_x, y - pb.partitions@[k].offset_y),
        forall|k: int|
            0 <= k < parts.len() ==> (#[trigger] parts[k]).same_setup(pb.partitions@[k]) && parts[k].color@ == img_result_on(
                pb.partitions@[k].canvas(),
                cell_pixels(pb.buffer.color@, pb.buffer.width as int, pb.partitions@[k]),
                image,
                x - pb.partitions@[k].offset_x,
                y - pb.partitions@[k].offset_y,
            ),
    ensures
        blit_back(pb.buffer.color@, pb.buffer.width as int, pb.buffer.height as int, parts) == img_result(pb.buffer, image, x, y),
{
    let w = pb.buffer.width as int;
    let h = pb.buffer.height as int;
    let cv = pb.buffer.canvas();
    let pix = pb.buffer.color@;
    let iw = image.width as int;
    let ih = image.height as int;
    assert(plain(cv, pix));
    lemma_image_region_plain(cv, pix, image, x, y, 0, ih, 0, iw);
    let direct = img_result(pb.buffer, image, x, y);
    assert forall|k: int| 0 <= k < parts.len() implies (#[trigger] parts[k]).wf() by {
        let p = pb.partitions@[k];
        lemma_plain_cell(pb, k);
        lemma_image_region_plain(p.canvas(), cell_pixels(pix, w, p), image, x - p.offset_x, y - p.offset_y, 0, ih, 0, iw);
    }
    assert forall|k: int, lx: int, ly: int|
        0 <= k < parts.len() && 0 <= lx < parts[k].width && 0 <= ly < parts[k].height implies #[trigger] pixel_at(
        parts[k].color@,
        parts[k].width as int,
        lx,
        ly,
    ) == pixel_at(direct, w, parts[k].offset_x + lx, parts[k].offset_y + ly) by {
        let p = pb.partitions@[k];
        let pcv = p.canvas();
        let ox = p.offset_x as int;
        let oy = p.offset_y as int;
        lemma_plain_cell(pb, k);
        lemma_image_region_plain(pcv, cell_pixels(pix, w, p), image, x - ox, y - oy, 0, ih, 0, iw);
        assert(pcv.in_bounds(lx, ly));
        assert(cv.in_bounds(ox + lx, oy + ly));
        assert(lx - (x - ox) == (ox + lx) - x);
        assert(ly - (y - oy) == (oy + ly) - y);
        lemma_cell_pixel(pix, w, p, lx, ly);
    }
    lemma_grid_copy_back(pb, parts, direct);
}

/// Setting a run of points to one color, on a canvas that is drawing, sets each pixel that
/// one of them lands on and changes no other pixel.
pub proof fn lemma_pset_seq_pixel(cv: Canvas, pix: Seq<u8>, ps: Seq<(int, int)>, c: Color, px: int, py: int)
    requires
        pix.len() == cv.width * cv.height * 4,
        cv.drawing,
        cv.in_bounds(px, py),
    ensures
        cv.pset_seq(pix, ps, c).len() == pix.len(),
        pixel_at(cv.pset_seq(pix, ps, c), cv.width as int, px, py) == if ps.contains((px, py)) {
            c
        } else {
            pixel_at(pix, cv.width as int, px, py)
        },
    decreases ps.len(),
{
    if ps.len() > 0 {
        let q = ps.drop_last();
        let l = ps.last();
        lemma_pset_seq_pixel(cv, pix, q, c, px, py);
        let prev = cv.pset_seq(pix, q, c);
        if cv.in_bounds(l.0, l.1) {
            lemma_write_pixel_at(prev, cv.width as int, cv.height as int, l.0, l.1, c);
        }
        if ps.contains((px, py)) {
            let i = choose|i: int| 0 <= i < ps.len() && ps[i] == (px, py);
            if i < ps.len() - 1 {
                assert(q[i] == (px, py));
            }
        }
        if q.contains((px, py)) {
            let i = choose|i: int| 0 <= i < q.len() && q[i] == (px, py);
            assert(ps[i] == (px, py));
        }
        if l == (px, py) {
            assert(ps[ps.len() - 1] == (px, py));
        }
    }
}

/// The eight mirrored points of a circle step move with the center.
proof fn lemma_octants_shift(xc: int, yc: int, x: int, y: int, a: int, b: int)
    ensures
        octants(xc - a, yc - b, x, y) == octants(xc, yc, x, y).map_values(|p: (int, int)| (p.0 - a, p.1 - b)),
{
    assert(octants(xc - a, yc - b, x, y) =~= octants(xc, yc, x, y).map_values(|p: (int, int)| (p.0 - a, p.1 - b)));
}

/// The rest of a circle outline moves with the center.
proof fn lemma_circle_from_shift(xc: int, yc: int, x: int, y: int, d: int, fuel: nat, a: int, b: int)
    ensures
        circle_from(xc - a, yc - b, x, y, d, fuel) == circle_from(xc, yc, x, y, d, fuel).map_values(
            |p: (int, int)| (p.0 - a, p.1 - b),
        ),
    decreases fuel,
{
    let f = |p: (int, int)| (p.0 - a, p.1 - b);
    if !(y < x || fuel == 0) {
        let nx = x + 1;
        let ny = if d > 0 {
            y - 1
        } else {
            y
        };
        let nd = if d > 0 {
            d + 4 * (nx - ny) + 10
        } else {
            d + 4 * nx + 6
        };
        lemma_circle_from_shift(xc, yc, nx, ny, nd, (fuel - 1) as nat, a, b);
        lemma_octants_shift(xc, yc, nx, ny, a, b);
        let o = octants(xc, yc, nx, ny);
        let r = circle_from(xc, yc, nx, ny, nd, (fuel - 1) as nat);
        assert((o + r).map_values(f) =~= o.map_values(f) + r.map_values(f));
    } else {
        assert(circle_from(xc, yc, x, y, d, fuel).map_values(f) =~= Seq::<(int, int)>::empty());
    }
}

/// A point lies on the outline of a circle around (xc - a, yc - b) when the point moved
/// by (a, b) lies on the outline around (xc, yc).
proof fn lemma_circle_points_shift(xc: int, yc: int, r: int, a: int, b: int, px: int, py: int)
    ensures
        circle_points(xc - a, yc - b, r).contains((px, py)) == circle_points(xc, yc, r).contains((px + a, py + b)),
{
    let f = |p: (int, int)| (p.0 - a, p.1 - b);
    let fuel: nat = if r >= 0 {
        (r + 1) as nat
    } else {
        0
    };
    lemma_octants_shift(xc, yc, 0, r, a, b);
    lemma_circle_from_shift(xc, yc, 0, r, 3 - 2 * r, fuel, a, b);
    let whole = circle_points(xc, yc, r);
    let moved = circle_points(xc - a, yc - b, r);
    assert(moved =~= whole.map_values(f)) by {
        let o = octants(xc, yc, 0, r);
        let rest = circle_from(xc, yc, 0, r, 3 - 2 * r, fuel);
        assert((o + rest).map_values(f) =~= o.map_values(f) + rest.map_values(f));
    }
    if moved.contains((px, py)) {
        let i = choose|i: int| 0 <= i < moved.len() && moved[i] == (px, py);
        assert(whole[i] == (px + a, py + b));
    }
    if whole.contains((px + a, py + b)) {
        let i = choose|i: int| 0 <= i < whole.len() && whole[i] == (px + a, py + b);
        assert(moved[i] == (px, py));
    }
}

/// Drawing a circle outline into each partition of a buffer laid out as a grid, where
/// every partition draws as the whole buffer does, each partition first refreshed from the
/// whole buffer, and copying the partitions back gives the same pixels as drawing it into
/// the whole buffer: the partitioned outline is the outline.
pub proof fn law_partitioned_circle_outline(pb: PartitionedBuffer, parts: Seq<Buffer>, xc: int, yc: int, r: int, c: Color)
    requires
        pb.gridded(),
        drawing_parts(pb),
        parts.len() == pb.partitions@.len(),
        forall|k: int|
            0 <= k < parts.len() ==> (#[trigger] parts[k]).same_setup(pb.partitions@[k]) && parts[k].color@ == circle_result_on(
                pb.partitions@[k].canvas(),
                cell_pixels(pb.buffer.color@, pb.buffer.width as int, pb.partitions@[k]),
                false,
                xc - pb.partitions@[k].offset_x,
                yc - pb.partitions@[k].offset_y,
                r,
                c,
            ),
    ensures
        blit_back(pb.buffer.color@, pb.buffer.width as int, pb.buffer.height as int, parts) == circle_result(pb.buffer, false, xc, yc, r, c),
{
    let w = pb.buffer.width as int;
    let h = pb.buffer.height as int;
    let cv = pb.buffer.canvas();
    let pix = pb.buffer.color@;
    let direct = circle_result(pb.buffer, false, xc, yc, r, c);
    law_partitions_inside(pb);
    assert(pix.len() == w * h * 4);
    if w > 0 && h > 0 {
        lemma_pset_seq_pixel(cv, pix, circle_points(xc, yc, r), c, 0, 0);
    } else {
        assert(direct =~= pix) by {
            lemma_pset_seq_empty_canvas(cv, pix, circle_points(xc, yc, r), c);
        }
    }
    assert forall|k: int| 0 <= k < parts.len() implies (#[trigger] parts[k]).wf() by {
        let p = pb.partitions@[k];
        assert(p.wf());
        if p.width > 0 && p.height > 0 {
            lemma_cell_pixel(pix, w, p, 0, 0);
            lemma_pset_seq_pixel(p.canvas(), cell_pixels(pix, w, p), circle_points(xc - p.offset_x, yc - p.offset_y, r), c, 0, 0);
        } else {
            lemma_pset_seq_empty_canvas(p.canvas(), cell_pixels(pix, w, p), circle_points(xc - p.offset_x, yc - p.offset_y, r), c);
        }
    }
    assert forall|k: int, lx: int, ly: int|
        0 <= k < parts.len() && 0 <= lx < parts[k].width && 0 <= ly < parts[k].height implies #[trigger] pixel_at(
        parts[k].color@,
        parts[k].width as int,
        lx,
        ly,
    ) == pixel_at(direct, w, parts[k].offset_x + lx, parts[k].offset_y + ly) by {
        let p = pb.partitions@[k];
        let ox = p.offset_x as int;
        let oy = p.offset_y as int;
        lemma_cell_pixel(pix, w, p, lx, ly);
        lemma_pset_seq_pixel(p.canvas(), cell_pixels(pix, w, p), circle_points(xc - ox, yc - oy, r), c, lx, ly);
        lemma_pset_seq_pixel(cv, pix, circle_points(xc, yc, r), c, ox + lx, oy + ly);
        lemma_circle_points_shift(xc, yc, r, ox, oy, lx, ly);
    }
    lemma_grid_copy_back(pb, parts, direct);
}

/// Setting points on a canvas with no pixels keeps the pixels.
proof fn lemma_pset_seq_empty_canvas(cv: Canvas, pix: Seq<u8>, ps: Seq<(int, int)>, c: Color)
    requires
        cv.width == 0 || cv.height == 0,
    ensures
        cv.pset_seq(pix, ps, c) == pix,
    decreases ps.len(),
{
    if ps.len() > 0 {
        lemma_pset_seq_empty_canvas(cv, pix, ps.drop_last(), c);
    }
}

/// Every dab of `f` over the cells from (x0, y0) to (x1, y1) lands where it is made.
pub open spec fn in_place_over(f: spec_fn(int, int) -> Option<Dab>, y0: int, y1: int, x0: int, x1: int) -> bool {
    forall|x: int, y: int|
        y0 <= y < y1 && x0 <= x < x1 && (#[trigger] f(x, y)) is Some ==> f(x, y).unwrap().0 as int == x && f(x, y).unwrap().1 as int
            == y
}

/// The pixel (px, py) of the pixels `pix` of a canvas `w` pixels wide after the dabs of
/// `f` over the cells from (x0, y0) to (x1, y1) are set without shaders: the dab's color
/// where `f` makes a dab for the pixel, the pixel as it was otherwise.
pub open spec fn place_pixel(pix: Seq<u8>, w: int, y0: int, y1: int, x0: int, x1: int, f: spec_fn(int, int) -> Option<Dab>, px: int, py: int) -> Color {
    if y0 <= py < y1 && x0 <= px < x1 && f(px, py) is Some {
        f(px, py).unwrap().2
    } else {
        pixel_at(pix, w, px, py)
    }
}

/// Setting the dabs of an in-place fill along a row segment of a canvas without shaders
/// that is drawing sets each cell with a dab to its color, and changes no other pixel.
pub proof fn lemma_place_row_plain(cv: Canvas, pix: Seq<u8>, y: int, x0: int, x1: int, f: spec_fn(int, int) -> Option<Dab>)
    requires
        cv.shaders.len() == 0,
        cv.drawing,
        pix.len() == cv.width * cv.height * 4,
        in_place_over(f, y, y + 1, x0, x1),
    ensures
        cv.plot_seq(pix, row_dabs(y, x0, x1, f), true).len() == pix.len(),
        forall|px: int, py: int|
            cv.in_bounds(px, py) ==> #[trigger] pixel_at(cv.plot_seq(pix, row_dabs(y, x0, x1, f), true), cv.width as int, px, py)
                == place_pixel(pix, cv.width as int, y, y + 1, x0, x1, f, px, py),
    decreases x1 - x0,
{
    let w = cv.width as int;
    let h = cv.height as int;
    if x1 > x0 {
        assert(in_place_over(f, y, y + 1, x0, x1 - 1));
        lemma_place_row_plain(cv, pix, y, x0, x1 - 1, f);
        let prev = row_dabs(y, x0, x1 - 1, f);
        let mid = cv.plot_seq(pix, prev, true);
        if f(x1 - 1, y) is Some {
            let d = f(x1 - 1, y).unwrap();
            assert(d.0 as int == x1 - 1 && d.1 as int == y);
            assert(row_dabs(y, x0, x1, f) == prev.push(d));
            assert(prev.push(d).drop_last() =~= prev);
            assert(cv.shade(mid, d) == d);
            if cv.in_bounds(x1 - 1, y) {
                lemma_write_pixel_at(mid, w, h, x1 - 1, y, d.2);
            }
        } else {
            assert(row_dabs(y, x0, x1, f) == prev);
        }
    }
}

/// Setting the dabs of an in-place fill over a rectangle of cells of a canvas without
/// shaders that is drawing sets each cell with a dab to its color, and changes no other
/// pixel.
pub proof fn lemma_place_region_plain(cv: Canvas, pix: Seq<u8>, y0: int, y1: int, x0: int, x1: int, f: spec_fn(int, int) -> Option<Dab>)
    requires
        cv.shaders.len() == 0,
        cv.drawing,
        pix.len() == cv.width * cv.height * 4,
        in_place_over(f, y0, y1, x0, x1),
    ensures
        cv.plot_seq(pix, region_dabs(y0, y1, x0, x1, f), true).len() == pix.len(),
        forall|px: int, py: int|
            cv.in_bounds(px, py) ==> #[trigger] pixel_at(cv.plot_seq(pix, region_dabs(y0, y1, x0, x1, f), true), cv.width as int, px, py)
                == place_pixel(pix, cv.width as int, y0, y1, x0, x1, f, px, py),
    decreases y1 - y0,
{
    if y1 > y0 {
        assert(in_place_over(f, y0, y1 - 1, x0, x1));
        assert(in_place_over(f, y1 - 1, y1, x0, x1));
        lemma_place_region_plain(cv, pix, y0, y1 - 1, x0, x1, f);
        let prev = region_dabs(y0, y1 - 1, x0, x1, f);
        let mid = cv.plot_seq(pix, prev, true);
        lemma_place_row_plain(cv, mid, y1 - 1, x0, x1, f);
        lemma_plot_seq_concat(cv, pix, prev, row_dabs(y1 - 1, x0, x1, f), true);
    }
}

/// Drawing a filled circle into each partition of a buffer laid out as a grid, with no
/// shaders and drawing, each partition first refreshed from the whole buffer, and copying
/// the partitions back gives the same pixels as drawing it into the whole buffer: the
/// partitioned disc is the disc, and the pixels it does not cover keep what the whole
/// buffer held.
pub proof fn law_partitioned_disc(pb: PartitionedBuffer, parts: Seq<Buffer>, xc: int, yc: int, r: int, c: Color)
    requires
        pb.gridded(),
        plain_parts(pb),
        drawing_parts(pb),
        parts.len() == pb.partitions@.len(),
        forall|k: int|
            0 <= k < parts.len() ==> (#[trigger] parts[k]).same_setup(pb.partitions@[k]) && parts[k].color@ == circle_result_on(
                pb.partitions@[k].canvas(),
                cell_pixels(pb.buffer.color@, pb.buffer.width as int, pb.partitions@[k]),
                true,
                xc - pb.partitions@[k].offset_x,
                yc - pb.partitions@[k].offset_y,
                r,
                c,
            ),
    ensures
        blit_back(pb.buffer.color@, pb.buffer.width as int, pb.buffer.height as int, parts) == circle_result(pb.buffer, true, xc, yc, r, c),
{
    let w = pb.buffer.width as int;
    let h = pb.buffer.height as int;
    let cv = pb.buffer.canvas();
    let pix = pb.buffer.color@;
    let bx = circle_box(cv, xc, yc, r);
    let f = disc_fill(xc, yc, r, c);
    assert(plain(cv, pix));
    assert(in_place_over(f, bx.2, bx.3, bx.0, bx.1));
    lemma_place_region_plain(cv, pix, bx.2, bx.3, bx.0, bx.1, f);
    let direct = circle_result(pb.buffer, true, xc, yc, r, c);
    assert forall|k: int| 0 <= k < parts.len() implies (#[trigger] parts[k]).wf() by {
        let p = pb.partitions@[k];
        lemma_plain_cell(pb, k);
        let pb2 = circle_box(p.canvas(), xc - p.offset_x, yc - p.offset_y, r);
        let pf = disc_fill(xc - p.offset_x, yc - p.offset_y, r, c);
        assert(in_place_over(pf, pb2.2, pb2.3, pb2.0, pb2.1));
        lemma_place_region_plain(p.canvas(), cell_pixels(pix, w, p), pb2.2, pb2.3, pb2.0, pb2.1, pf);
    }
    assert forall|k: int, lx: int, ly: int|
        0 <= k < parts.len() && 0 <= lx < parts[k].width && 0 <= ly < parts[k].height implies #[trigger] pixel_at(
        parts[k].color@,
        parts[k].width as int,
        lx,
        ly,
    ) == pixel_at(direct, w, parts[k].offset_x + lx, parts[k].offset_y + ly) by {
        let p = pb.partitions@[k];
        let pcv = p.canvas();
        let ox = p.offset_x as int;
        let oy = p.offset_y as int;
        lemma_plain_cell(pb, k);
        let pb2 = circle_box(pcv, xc - ox, yc - oy, r);
        let pf = disc_fill(xc - ox, yc - oy, r, c);
        assert(in_place_over(pf, pb2.2, pb2.3, pb2.0, pb2.1));
        lemma_place_region_plain(pcv, cell_pixels(pix, w, p), pb2.2, pb2.3, pb2.0, pb2.1, pf);
        assert(pcv.in_bounds(lx, ly));
        assert(cv.in_bounds(ox + lx, oy + ly));
        assert(lx - (xc - ox) == (ox + lx) - xc);
        assert(ly - (yc - oy) == (oy + ly) - yc);
        assert(pf(lx, ly) is Some <==> f(ox + lx, oy + ly) is Some);
        lemma_cell_pixel(pix, w, p, lx, ly);
    }
    lemma_grid_copy_back(pb, parts, direct);
}

} // verus!
