//! The rasterizer: a pixel buffer that draws every incoming pixel through one of a set of
//! drawing modes (opaque, alpha blended, added, multiplied, inverted, ...), tinted and with
//! an opacity, and counts the pixels drawn since it was last cleared.
use vstd::prelude::*;
use crate::color::{Color, mul_spec, blend_spec, blend_defined, add_fits, add_spec_color, inverted_spec};
use crate::buffer::{write_pixel, read_pixel, lemma_index_in_bounds, lemma_neg_mod, filled_with, channel};
use crate::compose::{blit_copy_spec, copy_rect};
use crate::region::{region_dabs, row_dabs, runs, lemma_runs_split, lemma_region_progress};
use crate::shapes::{octants, circle_from, circle_points};

verus! {

/// Controls how a rasterizer should draw incoming pixels.
#[derive(Debug, Clone, Copy, PartialEq, Eq, Structural)]
pub enum DrawMode {
    NoOp,
    NoAlpha,
    Opaque,
    Alpha,
    Addition,
    Subtraction,
    Multiply,
    Divide,
    ForceTint,
    InvertedAlpha,
    InvertedOpaque,
    InvertedBgAlpha,
    InvertedBgOpaque,
    PatternOpaque,
    PatternAlpha,
    PatternAddition,
    PatternSubtraction,
    PatternMultiply,
    PatternDivide,
    PatternInvertedAlpha,
    PatternInvertedOpaque,
    PatternInvertedBgAlpha,
    PatternInvertedBgOpaque,
}

/// The operation a rasterizer draws each pixel with.
#[derive(Debug, Clone, Copy, PartialEq, Eq, Structural)]
pub enum PSetOp {
    NoOp,
    NoAlpha,
    Opaque,
    Alpha,
    Addition,
    Subtraction,
    Multiply,
    Divide,
    ForceTint,
    InvertedAlpha,
    InvertedOpaque,
    InvertedBgOpaque,
    InvertedBgAlpha,
}

/// The operation that `set_draw_mode` selects for a mode: each mode has its own, and a
/// pattern mode draws with the operation of the mode it is named after.
pub open spec fn mode_op(mode: DrawMode) -> PSetOp {
    match mode {
        DrawMode::NoOp => PSetOp::NoOp,
        DrawMode::NoAlpha => PSetOp::NoAlpha,
        DrawMode::Opaque => PSetOp::Opaque,
        DrawMode::Alpha => PSetOp::Alpha,
        DrawMode::Addition => PSetOp::Addition,
        DrawMode::Subtraction => PSetOp::Subtraction,
        DrawMode::Multiply => PSetOp::Multiply,
        DrawMode::Divide => PSetOp::Divide,
        DrawMode::ForceTint => PSetOp::ForceTint,
        DrawMode::InvertedAlpha => PSetOp::InvertedAlpha,
        DrawMode::InvertedOpaque => PSetOp::InvertedOpaque,
        DrawMode::InvertedBgAlpha => PSetOp::InvertedBgAlpha,
        DrawMode::InvertedBgOpaque => PSetOp::InvertedBgOpaque,
        DrawMode::PatternOpaque => PSetOp::Opaque,
        DrawMode::PatternAlpha => PSetOp::Alpha,
        DrawMode::PatternAddition => PSetOp::Addition,
        DrawMode::PatternSubtraction => PSetOp::Subtraction,
        DrawMode::PatternMultiply => PSetOp::Multiply,
        DrawMode::PatternDivide => PSetOp::Divide,
        DrawMode::PatternInvertedAlpha => PSetOp::InvertedAlpha,
        DrawMode::PatternInvertedOpaque => PSetOp::InvertedOpaque,
        DrawMode::PatternInvertedBgAlpha => PSetOp::InvertedBgAlpha,
        DrawMode::PatternInvertedBgOpaque => PSetOp::InvertedBgOpaque,
    }
}

/// One channel of a subtraction: `bg - fg`, at least 0.
pub open spec fn sub_channel_spec(bg: int, fg: int) -> int {
    if bg >= fg {
        bg - fg
    } else {
        0
    }
}

/// One channel of a division: `bg * 255 / fg`, at most 255; 255 where `fg` is 0.
pub open spec fn div_channel_spec(bg: int, fg: int) -> int {
    if fg == 0 {
        255
    } else if bg * 255 / fg > 255 {
        255
    } else {
        bg * 255 / fg
    }
}

/// The background color the operations read at byte index `i`: the stored color
/// channels, fully opaque.
pub open spec fn bg_at(pix: Seq<u8>, i: int) -> Color {
    Color { r: pix[i], g: pix[i + 1], b: pix[i + 2], a: 255 }
}

/// The color that operation `op` stores for the incoming color `c` over the background
/// `bg`, or `None` where the operation skips the pixel.
pub open spec fn op_color(op: PSetOp, bg: Color, c: Color, tint: Color, opacity: u8) -> Option<Color> {
    let fg = mul_spec(c, tint);
    match op {
        PSetOp::NoOp => Some(c),
        PSetOp::NoAlpha => Some(fg),
        PSetOp::Opaque => if c.a < 255 {
            None
        } else {
            Some(fg)
        },
        PSetOp::ForceTint => if c.a < 255 {
            None
        } else {
            Some(tint)
        },
        PSetOp::Alpha => Some(blend_spec(fg, bg, opacity)),
        PSetOp::Addition => if c.a == 0 {
            None
        } else {
            Some(add_spec_color(blend_spec(fg, bg, opacity), bg))
        },
        PSetOp::Subtraction => if c.a == 0 {
            None
        } else {
            let b = blend_spec(fg, bg, opacity);
            Some(
                Color {
                    r: sub_channel_spec(bg.r as int, b.r as int) as u8,
                    g: sub_channel_spec(bg.g as int, b.g as int) as u8,
                    b: sub_channel_spec(bg.b as int, b.b as int) as u8,
                    a: 255,
                },
            )
        },
        PSetOp::Divide => if c.a == 0 {
            None
        } else {
            let b = blend_spec(fg, bg, opacity);
            Some(
                Color {
                    r: div_channel_spec(bg.r as int, b.r as int) as u8,
                    g: div_channel_spec(bg.g as int, b.g as int) as u8,
                    b: div_channel_spec(bg.b as int, b.b as int) as u8,
                    a: 255,
                },
            )
        },
        PSetOp::Multiply => if c.a == 0 {
            None
        } else {
            Some(mul_spec(blend_spec(inverted_spec(fg), bg, opacity), bg))
        },
        PSetOp::InvertedAlpha => if c.a == 0 {
            None
        } else {
            Some(blend_spec(inverted_spec(fg), bg, opacity))
        },
        PSetOp::InvertedOpaque => if c.a < 255 {
            None
        } else {
            Some(inverted_spec(mul_spec(bg, tint)))
        },
        PSetOp::InvertedBgOpaque => if c.a < 255 {
            None
        } else {
            Some(inverted_spec(mul_spec(bg, tint)))
        },
        PSetOp::InvertedBgAlpha => if c.a < 255 {
            None
        } else {
            Some(blend_spec(bg, inverted_spec(mul_spec(bg, tint)), opacity))
        },
    }
}

/// Operation `op` does not fail on these colors: the blends it makes are defined and the
/// sums it makes do not overflow.
pub open spec fn op_req(op: PSetOp, bg: Color, c: Color, tint: Color, opacity: u8) -> bool {
    let fg = mul_spec(c, tint);
    match op {
        PSetOp::Alpha => blend_defined(fg, opacity),
        PSetOp::Addition => c.a != 0 ==> blend_defined(fg, opacity) && add_fits(blend_spec(fg, bg, opacity), bg),
        PSetOp::Subtraction => c.a != 0 ==> blend_defined(fg, opacity),
        PSetOp::Multiply => c.a != 0 ==> blend_defined(fg, opacity),
        PSetOp::Divide => c.a != 0 ==> blend_defined(fg, opacity),
        PSetOp::InvertedAlpha => c.a != 0 ==> blend_defined(fg, opacity),
        _ => true,
    }
}

/// The pixels and the drawn-pixel count after operation `op` ran at byte index `i`: a
/// stored pixel counts once.
pub open spec fn op_effect(op: PSetOp, pix: Seq<u8>, count: int, i: int, c: Color, tint: Color, opacity: u8) -> (Seq<u8>, int) {
    match op_color(op, bg_at(pix, i), c, tint, opacity) {
        Some(o) => (write_pixel(pix, i, o), count + 1),
        None => (pix, count),
    }
}

/// An integer fits an `i64`.
pub open spec fn fits_i64(v: int) -> bool {
    i64::MIN <= v <= i64::MAX
}

/// The step toward `to` from `from`: 1 when `from < to`, -1 otherwise.
pub open spec fn r_step_toward(from: int, to: int) -> int {
    if from < to {
        1
    } else {
        -1
    }
}

/// The first error term of a rasterizer line over the distances `dx` and `dy`: half the
/// longer distance, negative when the line is steep.
pub open spec fn r_err0(dx: int, dy: int) -> int {
    if dx > dy {
        dx / 2
    } else {
        -(dy / 2)
    }
}

/// One step of the rasterizer's line: x advances while twice the error term is above
/// `-dx`, y while it is below `dy`; the new position and error term.
pub open spec fn r_step(x: int, y: int, err: int, dx: int, dy: int, sx: int, sy: int) -> (int, int, int) {
    let e2 = 2 * err;
    let err1 = if e2 > -dx {
        err - dy
    } else {
        err
    };
    let nx = if e2 > -dx {
        x + sx
    } else {
        x
    };
    let err2 = if e2 < dy {
        err1 + dx
    } else {
        err1
    };
    let ny = if e2 < dy {
        y + sy
    } else {
        y
    };
    (nx, ny, err2)
}

/// The rest of a rasterizer line from (x, y) with error term `err` toward (x1, y1): every
/// point is drawn, then a step is taken, until the end is reached.
pub open spec fn rline_from(x: int, y: int, err: int, x1: int, y1: int, dx: int, dy: int, sx: int, sy: int, fuel: nat) -> Seq<(int, int)>
    decreases fuel,
{
    if (x == x1 && y == y1) || fuel == 0 {
        seq![(x, y)]
    } else {
        let n = r_step(x, y, err, dx, dy, sx, sy);
        seq![(x, y)] + rline_from(n.0, n.1, n.2, x1, y1, dx, dy, sx, sy, (fuel - 1) as nat)
    }
}

/// The absolute value of an integer.
pub open spec fn r_abs(v: int) -> int {
    if v < 0 {
        -v
    } else {
        v
    }
}

/// The points of the rasterizer's line from (x0, y0) to (x1, y1), in drawing order.
pub open spec fn rline_points(x0: int, y0: int, x1: int, y1: int) -> Seq<(int, int)> {
    let dx = r_abs(x1 - x0);
    let dy = r_abs(y1 - y0);
    rline_from(x0, y0, r_err0(dx, dy), x1, y1, dx, dy, r_step_toward(x0, x1), r_step_toward(y0, y1), (dx + dy) as nat)
}

/// Points as dabs of one color.
pub open spec fn to_rdabs(ps: Seq<(int, int)>, c: Color) -> Seq<RDab> {
    ps.map_values(|p: (int, int)| (p.0, p.1, c))
}

/// A rasterizer line state on its way to (x1, y1): the steps left on each axis lie within
/// the distances, the error term is the one the steps taken give, and it stays between
/// `-dy` and `dx`.
pub open spec fn r_on_track(x: int, y: int, err: int, x1: int, y1: int, dx: int, dy: int, sx: int, sy: int) -> bool {
    let rx = (x1 - x) * sx;
    let ry = (y1 - y) * sy;
    &&& sx == 1 || sx == -1
    &&& sy == 1 || sy == -1
    &&& 0 <= rx <= dx
    &&& 0 <= ry <= dy
    &&& err == r_err0(dx, dy) + rx * dy - ry * dx
    &&& -dy <= err <= dx
}

/// A step from a state on its way that is not at the end keeps it on its way and brings
/// it closer.
pub proof fn lemma_r_step(x: int, y: int, err: int, x1: int, y1: int, dx: int, dy: int, sx: int, sy: int)
    requires
        r_on_track(x, y, err, x1, y1, dx, dy, sx, sy),
        !(x == x1 && y == y1),
    ensures
        r_on_track(
            r_step(x, y, err, dx, dy, sx, sy).0,
            r_step(x, y, err, dx, dy, sx, sy).1,
            r_step(x, y, err, dx, dy, sx, sy).2,
            x1,
            y1,
            dx,
            dy,
            sx,
            sy,
        ),
        (x1 - r_step(x, y, err, dx, dy, sx, sy).0) * sx + (y1 - r_step(x, y, err, dx, dy, sx, sy).1) * sy < (x1 - x) * sx + (y1
            - y) * sy,
        r_abs(r_step(x, y, err, dx, dy, sx, sy).0 - x) <= 1,
        r_abs(r_step(x, y, err, dx, dy, sx, sy).1 - y) <= 1,
{
    let rx = (x1 - x) * sx;
    let ry = (y1 - y) * sy;
    let e0 = r_err0(dx, dy);
    assert(x == x1 <==> rx == 0) by (nonlinear_arith)
        requires
            rx == (x1 - x) * sx,
            sx == 1 || sx == -1,
    ;
    assert(y == y1 <==> ry == 0) by (nonlinear_arith)
        requires
            ry == (y1 - y) * sy,
            sy == 1 || sy == -1,
    ;
    let xstep = 2 * err > -dx;
    let ystep = 2 * err < dy;
    assert(2 * e0 <= dx && -dy <= 2 * e0);
    if rx == 0 {
        assert(ry >= 1);
        assert(!xstep) by (nonlinear_arith)
            requires
                err == e0 + rx * dy - ry * dx,
                rx == 0,
                ry >= 1,
                dx >= 0,
                2 * e0 <= dx,
                xstep == (2 * err > -dx),
        ;
    }
    if ry == 0 {
        assert(rx >= 1);
        assert(!ystep) by (nonlinear_arith)
            requires
                err == e0 + rx * dy - ry * dx,
                ry == 0,
                rx >= 1,
                dy >= 0,
                -dy <= 2 * e0,
                ystep == (2 * err < dy),
        ;
    }
    assert(xstep || ystep);
    let n = r_step(x, y, err, dx, dy, sx, sy);
    let nrx = if xstep {
        rx - 1
    } else {
        rx
    };
    let nry = if ystep {
        ry - 1
    } else {
        ry
    };
    assert((x1 - n.0) * sx == nrx) by (nonlinear_arith)
        requires
            rx == (x1 - x) * sx,
            sx == 1 || sx == -1,
            n.0 == if xstep {
                x + sx
            } else {
                x
            },
            nrx == if xstep {
                rx - 1
            } else {
                rx
            },
    ;
    assert((y1 - n.1) * sy == nry) by (nonlinear_arith)
        requires
            ry == (y1 - y) * sy,
            sy == 1 || sy == -1,
            n.1 == if ystep {
                y + sy
            } else {
                y
            },
            nry == if ystep {
                ry - 1
            } else {
                ry
            },
    ;
    assert(n.2 == e0 + nrx * dy - nry * dx) by (nonlinear_arith)
        requires
            err == e0 + rx * dy - ry * dx,
            n.2 == err + (if xstep {
                -dy
            } else {
                0
            }) + (if ystep {
                dx
            } else {
                0
            }),
            nrx == if xstep {
                rx - 1
            } else {
                rx
            },
            nry == if ystep {
                ry - 1
            } else {
                ry
            },
    ;
}

/// `v` clamped into `lo..=hi`.
pub open spec fn r_clamp(v: int, lo: int, hi: int) -> int {
    if v < lo {
        lo
    } else if v > hi {
        hi
    } else {
        v
    }
}

/// `i64::clamp` for `lo <= hi`.
fn clamp_i64(v: i64, lo: i64, hi: i64) -> (r: i64)
    requires
        lo <= hi,
    ensures
        r == r_clamp(v as int, lo as int, hi as int),
{
    if v < lo {
        lo
    } else if v > hi {
        hi
    } else {
        v
    }
}

/// The dabs that `pline` sets: the line between the ends clamped to `0..=width` and
/// `0..=height`.
pub open spec fn rline_dabs(rc: RCanvas, x0: int, y0: int, x1: int, y1: int, c: Color) -> Seq<RDab> {
    let w = rc.width as int;
    let h = rc.height as int;
    to_rdabs(rline_points(r_clamp(x0, 0, w), r_clamp(y0, 0, h), r_clamp(x1, 0, w), r_clamp(y1, 0, h)), c)
}

/// The line arithmetic of `cline` stays within `i64`: the distances fit, and so does twice
/// each of them, where the doubled error term stays.
pub open spec fn rline_fits(x0: int, y0: int, x1: int, y1: int) -> bool {
    &&& fits_i64(x1 - x0)
    &&& fits_i64(y1 - y0)
    &&& 2 * r_abs(x1 - x0) <= i64::MAX
    &&& 2 * r_abs(y1 - y0) <= i64::MAX
}

/// A rasterizer line from a state on its way ends at (x1, y1), moves between neighbouring
/// points and has at most one point per step left.
pub proof fn lemma_rline_reaches(x: int, y: int, err: int, x1: int, y1: int, dx: int, dy: int, sx: int, sy: int, fuel: nat)
    requires
        r_on_track(x, y, err, x1, y1, dx, dy, sx, sy),
        fuel >= (x1 - x) * sx + (y1 - y) * sy,
    ensures
        rline_from(x, y, err, x1, y1, dx, dy, sx, sy, fuel)[0] == (x, y),
        rline_from(x, y, err, x1, y1, dx, dy, sx, sy, fuel).last() == (x1, y1),
        rline_from(x, y, err, x1, y1, dx, dy, sx, sy, fuel).len() <= (x1 - x) * sx + (y1 - y) * sy + 1,
        forall|i: int|
            0 <= i < rline_from(x, y, err, x1, y1, dx, dy, sx, sy, fuel).len() - 1 ==> {
                let p = #[trigger] rline_from(x, y, err, x1, y1, dx, dy, sx, sy, fuel)[i];
                let q = rline_from(x, y, err, x1, y1, dx, dy, sx, sy, fuel)[i + 1];
                r_abs(q.0 - p.0) <= 1 && r_abs(q.1 - p.1) <= 1
            },
    decreases fuel,
{
    let rx = (x1 - x) * sx;
    let ry = (y1 - y) * sy;
    assert(x == x1 <==> rx == 0) by (nonlinear_arith)
        requires
            rx == (x1 - x) * sx,
            sx == 1 || sx == -1,
    ;
    assert(y == y1 <==> ry == 0) by (nonlinear_arith)
        requires
            ry == (y1 - y) * sy,
            sy == 1 || sy == -1,
    ;
    if (x == x1 && y == y1) || fuel == 0 {
        assert(x == x1 && y == y1);
    } else {
        let n = r_step(x, y, err, dx, dy, sx, sy);
        lemma_r_step(x, y, err, x1, y1, dx, dy, sx, sy);
        lemma_rline_reaches(n.0, n.1, n.2, x1, y1, dx, dy, sx, sy, (fuel - 1) as nat);
        let rest = rline_from(n.0, n.1, n.2, x1, y1, dx, dy, sx, sy, (fuel - 1) as nat);
        let all = rline_from(x, y, err, x1, y1, dx, dy, sx, sy, fuel);
        assert(all == seq![(x, y)] + rest);
        assert forall|i: int| 0 <= i < all.len() - 1 implies {
            let p = #[trigger] all[i];
            let q = all[i + 1];
            r_abs(q.0 - p.0) <= 1 && r_abs(q.1 - p.1) <= 1
        } by {
            if i > 0 {
                assert(all[i] == rest[i - 1]);
                assert(all[i + 1] == rest[i]);
            }
        }
    }
}

/// The first state of a line is on its way and its fuel suffices.
pub proof fn lemma_rline_start(x0: int, y0: int, x1: int, y1: int)
    ensures
        r_on_track(x0, y0, r_err0(r_abs(x1 - x0), r_abs(y1 - y0)), x1, y1, r_abs(x1 - x0), r_abs(y1 - y0), r_step_toward(x0, x1), r_step_toward(y0, y1)),
        (x1 - x0) * r_step_toward(x0, x1) == r_abs(x1 - x0),
        (y1 - y0) * r_step_toward(y0, y1) == r_abs(y1 - y0),
{
    let dx = r_abs(x1 - x0);
    let dy = r_abs(y1 - y0);
    let sx = r_step_toward(x0, x1);
    let sy = r_step_toward(y0, y1);
    assert((x1 - x0) * sx == dx) by (nonlinear_arith)
        requires
            sx == r_step_toward(x0, x1),
            dx == r_abs(x1 - x0),
    ;
    assert((y1 - y0) * sy == dy) by (nonlinear_arith)
        requires
            sy == r_step_toward(y0, y1),
            dy == r_abs(y1 - y0),
    ;
    assert(r_err0(dx, dy) == r_err0(dx, dy) + dx * dy - dy * dx) by (nonlinear_arith);
}

/// Every position gets a dab of the color `c`.
pub open spec fn rsolid(c: Color) -> spec_fn(int, int) -> Option<RDab> {
    |x: int, y: int| Some((x, y, c))
}

/// The positions within distance `r` of (xc, yc) get a dab of the color `c`.
pub open spec fn rdisc_fill(xc: int, yc: int, r: int, c: Color) -> spec_fn(int, int) -> Option<RDab> {
    |x: int, y: int|
        if (x - xc) * (x - xc) + (y - yc) * (y - yc) <= r * r {
            Some((x, y, c))
        } else {
            None
        }
}

/// The dabs of `prectangle`: a filled rectangle sets the pixels of the rectangle clamped
/// to the buffer row by row; an outline sets, for each column of the clamped rectangle
/// and one more, its top and bottom pixel, then for each row its left and right pixel.
pub open spec fn rrect_dabs(rc: RCanvas, filled: bool, x: int, y: int, w: int, h: int, c: Color) -> Seq<RDab> {
    let x0 = r_clamp(x, 0, rc.width as int);
    let x1 = r_clamp(x + w, 0, rc.width as int);
    let y0 = r_clamp(y, 0, rc.height as int);
    let y1 = r_clamp(y + h, 0, rc.height as int);
    if filled {
        region_dabs(y0, y1, x0, x1, rsolid(c))
    } else {
        runs(x0, x1 + 1, |t: int| seq![(t, y0, c), (t, y1, c)]) + runs(y0, y1, |v: int| seq![(x0, v, c), (x1, v, c)])
    }
}

/// The box that a filled circle scans: one past the radius on the right and bottom,
/// clamped to the buffer.
pub open spec fn rcircle_box(rc: RCanvas, xc: int, yc: int, r: int) -> (int, int, int, int) {
    (
        r_clamp(xc - r, 0, rc.width as int),
        r_clamp(xc + r + 1, 0, rc.width as int),
        r_clamp(yc - r, 0, rc.height as int),
        r_clamp(yc + r + 1, 0, rc.height as int),
    )
}

/// The dabs of `pcircle`: a filled circle sets the pixels of its box within the radius,
/// row by row; an outline sets the points of the midpoint circle.
pub open spec fn rcircle_dabs(rc: RCanvas, filled: bool, xc: int, yc: int, r: int, c: Color) -> Seq<RDab> {
    let b = rcircle_box(rc, xc, yc, r);
    if filled {
        region_dabs(b.2, b.3, b.0, b.1, rdisc_fill(xc, yc, r, c))
    } else {
        to_rdabs(circle_points(xc, yc, r), c)
    }
}

/// The distance test of a filled circle stays within `i64` over its box.
pub open spec fn rdisc_fits(rc: RCanvas, xc: int, yc: int, r: int) -> bool {
    let b = rcircle_box(rc, xc, yc, r);
    &&& fits_i64(r * r)
    &&& forall|x: int, y: int|
        b.0 <= x < b.1 && b.2 <= y < b.3 ==> {
            &&& fits_i64(x - xc)
            &&& fits_i64(y - yc)
            &&& fits_i64((x - xc) * (x - xc))
            &&& fits_i64((y - yc) * (y - yc))
            &&& #[trigger] fits_i64((x - xc) * (x - xc) + (y - yc) * (y - yc))
        }
}

/// Where a fill of a region stands at row `y`, column `x`: the next dab can be set, and
/// the dabs set so far grow by it.
pub proof fn lemma_rfill_step(
    rc: RCanvas,
    st0: (Seq<u8>, int),
    ys: int,
    y: int,
    ye: int,
    xs: int,
    x: int,
    xe: int,
    f: spec_fn(int, int) -> Option<RDab>,
)
    requires
        ys <= y < ye,
        xs <= x < xe,
        rc.pset_seq_req(st0, region_dabs(ys, ye, xs, xe, f)),
    ensures
        f(x, y) is Some ==> region_dabs(ys, y, xs, xe, f) + row_dabs(y, xs, x + 1, f) == (region_dabs(ys, y, xs, xe, f)
            + row_dabs(y, xs, x, f)).push(f(x, y).unwrap()),
        f(x, y) is Some ==> rc.pset_req(
            rc.pset_seq(st0, region_dabs(ys, y, xs, xe, f) + row_dabs(y, xs, x, f)).0,
            rc.pset_seq(st0, region_dabs(ys, y, xs, xe, f) + row_dabs(y, xs, x, f)).1,
            f(x, y).unwrap(),
        ),
        f(x, y) is None ==> region_dabs(ys, y, xs, xe, f) + row_dabs(y, xs, x + 1, f) == region_dabs(ys, y, xs, xe, f)
            + row_dabs(y, xs, x, f),
{
    let a = region_dabs(ys, y, xs, xe, f);
    let cur = a + row_dabs(y, xs, x, f);
    let next = a + row_dabs(y, xs, x + 1, f);
    lemma_region_progress(ys, y, ye, xs, x + 1, xe, f);
    lemma_pset_seq_req_prefix(rc, st0, next, row_dabs(y, x + 1, xe, f) + region_dabs(y + 1, ye, xs, xe, f));
    if f(x, y) is Some {
        assert(next =~= cur.push(f(x, y).unwrap()));
        assert(next.drop_last() =~= cur);
    } else {
        assert(next =~= cur);
    }
}

/// Setting a run of two dabs after a prefix.
pub proof fn lemma_pset_two(rc: RCanvas, st0: (Seq<u8>, int), pre: Seq<RDab>, a: RDab, b: RDab)
    ensures
        rc.pset_seq(st0, pre + seq![a, b]) == rc.pset_spec(
            rc.pset_spec(rc.pset_seq(st0, pre).0, rc.pset_seq(st0, pre).1, a).0,
            rc.pset_spec(rc.pset_seq(st0, pre).0, rc.pset_seq(st0, pre).1, a).1,
            b,
        ),
        rc.pset_seq_req(st0, pre + seq![a, b]) == (rc.pset_seq_req(st0, pre) && rc.pset_req(rc.pset_seq(st0, pre).0, rc.pset_seq(st0, pre).1, a)
            && rc.pset_req(
            rc.pset_spec(rc.pset_seq(st0, pre).0, rc.pset_seq(st0, pre).1, a).0,
            rc.pset_spec(rc.pset_seq(st0, pre).0, rc.pset_seq(st0, pre).1, a).1,
            b,
        )),
{
    let s2 = pre + seq![a, b];
    let s1 = pre.push(a);
    assert(s2.drop_last() =~= s1);
    assert(s1.drop_last() =~= pre);
    assert(s2.last() == b);
    assert(s1.last() == a);
    assert(s2.len() > 0 && s1.len() > 0);
    let p1 = rc.pset_seq(st0, s1);
    assert(p1 == rc.pset_spec(rc.pset_seq(st0, pre).0, rc.pset_seq(st0, pre).1, a));
    assert(rc.pset_seq(st0, s2) == rc.pset_spec(p1.0, p1.1, b));
    assert(rc.pset_seq_req(st0, s1) == (rc.pset_seq_req(st0, pre) && rc.pset_req(rc.pset_seq(st0, pre).0, rc.pset_seq(st0, pre).1, a)));
    assert(rc.pset_seq_req(st0, s2) == (rc.pset_seq_req(st0, s1) && rc.pset_req(p1.0, p1.1, b)));
}

/// One more dab of a run that can be set: the run so far grows by it, and it can be set.
pub proof fn lemma_pset_seq_step(rc: RCanvas, st: (Seq<u8>, int), ds: Seq<RDab>, k: int)
    requires
        0 <= k < ds.len(),
        rc.pset_seq_req(st, ds),
    ensures
        ds.take(k + 1) == ds.take(k).push(ds[k]),
        rc.pset_seq(st, ds.take(k + 1)) == rc.pset_spec(rc.pset_seq(st, ds.take(k)).0, rc.pset_seq(st, ds.take(k)).1, ds[k]),
        rc.pset_req(rc.pset_seq(st, ds.take(k)).0, rc.pset_seq(st, ds.take(k)).1, ds[k]),
{
    assert(ds =~= ds.take(k + 1) + ds.skip(k + 1));
    lemma_pset_seq_req_prefix(rc, st, ds.take(k + 1), ds.skip(k + 1));
    assert(ds.take(k + 1) =~= ds.take(k).push(ds[k]));
    assert(ds.take(k + 1).drop_last() =~= ds.take(k));
}

/// The outline of a circle of radius `r` around (xc, yc) stays within `i64`: its points
/// and the decision value of the midpoint steps fit.
pub open spec fn rcircle_outline_fits(xc: int, yc: int, r: int) -> bool {
    &&& r >= 0 ==> 8 * (r + 2) * (r + 2) + 64 <= i64::MAX
    &&& fits_i64(2 * r)
    &&& fits_i64(3 - 2 * r)
    &&& fits_i64(xc - r_abs(r) - 1)
    &&& fits_i64(xc + r_abs(r) + 1)
    &&& fits_i64(yc - r_abs(r) - 1)
    &&& fits_i64(yc + r_abs(r) + 1)
}

/// The decision value of a midpoint circle step, in closed form.
pub open spec fn circle_decision(x: int, y: int, r: int) -> int {
    2 * x * x + 2 * y * y - 2 * r * r + 8 * x - 6 * y + 4 * r + 3
}

/// Within the steps of a circle the decision value is bounded.
proof fn lemma_circle_decision_bound(x: int, y: int, r: int)
    requires
        r >= 0,
        0 <= x <= r + 1,
        -1 <= y <= r + 1,
    ensures
        -8 * (r + 2) * (r + 2) <= circle_decision(x, y, r) <= 8 * (r + 2) * (r + 2),
{
    assert(-8 * (r + 2) * (r + 2) <= circle_decision(x, y, r) <= 8 * (r + 2) * (r + 2)) by (nonlinear_arith)
        requires
            r >= 0,
            0 <= x <= r + 1,
            -1 <= y <= r + 1,
    ;
}

/// The edge pixels of a triangle: the lines from corner 1 to 2, 2 to 3 and 3 to 1.
pub open spec fn tri_edges(x1: int, y1: int, x2: int, y2: int, x3: int, y3: int) -> Seq<(int, int)> {
    rline_points(x1, y1, x2, y2) + rline_points(x2, y2, x3, y3) + rline_points(x3, y3, x1, y1)
}

/// A point lies on row `y`.
pub open spec fn on_row(y: int) -> spec_fn((int, int)) -> bool {
    |p: (int, int)| p.1 == y
}

/// The points of `ps` on row `y`, in order.
pub open spec fn row_of(ps: Seq<(int, int)>, y: int) -> Seq<(int, int)> {
    ps.filter(on_row(y))
}

/// The smallest x of the points `ps` (the first point's for one point).
pub open spec fn min_x(ps: Seq<(int, int)>) -> int
    decreases ps.len(),
{
    if ps.len() <= 1 {
        ps[0].0
    } else {
        let m = min_x(ps.drop_last());
        if ps.last().0 < m {
            ps.last().0
        } else {
            m
        }
    }
}

/// The largest x of the points `ps` (the first point's for one point).
pub open spec fn max_x(ps: Seq<(int, int)>) -> int
    decreases ps.len(),
{
    if ps.len() <= 1 {
        ps[0].0
    } else {
        let m = max_x(ps.drop_last());
        if ps.last().0 > m {
            ps.last().0
        } else {
            m
        }
    }
}

/// The span a filled triangle draws on row `y`: a line from the leftmost to the rightmost
/// edge pixel on that row, which covers the triangle's edges and inside on that row;
/// nothing when no edge pixel lies on it.
pub open spec fn tri_span(rc: RCanvas, edges: Seq<(int, int)>, y: int, c: Color) -> Seq<RDab> {
    let row = row_of(edges, y);
    if row.len() == 0 {
        Seq::empty()
    } else {
        rline_dabs(rc, min_x(row), y, max_x(row), y, c)
    }
}

/// The dabs of `ptriangle`: a filled triangle draws, row by row over the buffer, the span
/// between the leftmost and the rightmost pixel of its edges on that row; an outline
/// draws its three edges.
pub open spec fn rtri_dabs(rc: RCanvas, filled: bool, x1: int, y1: int, x2: int, y2: int, x3: int, y3: int, c: Color) -> Seq<RDab> {
    if filled {
        runs(0, rc.height as int, |y: int| tri_span(rc, tri_edges(x1, y1, x2, y2, x3, y3), y, c))
    } else {
        rline_dabs(rc, x1, y1, x2, y2, c) + rline_dabs(rc, x1, y1, x3, y3, c) + rline_dabs(rc, x2, y2, x3, y3, c)
    }
}

/// The points of a row after one more point.
pub proof fn lemma_row_of_push(s: Seq<(int, int)>, p: (int, int), y: int)
    ensures
        row_of(s.push(p), y) == if p.1 == y {
            row_of(s, y).push(p)
        } else {
            row_of(s, y)
        },
{
    s.lemma_filter_push(p, on_row(y));
}

/// Pairs of `i64` as pairs of integers.
pub open spec fn int_pairs(v: Seq<(i64, i64)>) -> Seq<(int, int)> {
    v.map_values(|p: (i64, i64)| (p.0 as int, p.1 as int))
}

/// `x.rem_euclid(m)` for a positive modulus.
pub fn rem_euclid_i64(x: i64, m: i64) -> (r: i64)
    requires
        m > 0,
    ensures
        r == x as int % m as int,
        0 <= r < m,
{
    if x >= 0 {
        ((x as u64) % (m as u64)) as i64
    } else {
        let neg: u64 = if x == i64::MIN {
            9223372036854775808u64
        } else {
            (-x) as u64
        };
        let k: u64 = neg % (m as u64);
        proof {
            lemma_neg_mod(neg as int, m as int, k as int);
        }
        if k == 0 {
            0
        } else {
            m - k as i64
        }
    }
}

/// The color that `pget` reads from the rasterizer `img` at (x, y).
pub open spec fn rpixel(img: Rasterizer, x: int, y: int) -> Color {
    if 0 <= x < img.width && 0 <= y < img.height {
        read_pixel(img.color@, (y * img.width + x) * 4)
    } else {
        Color { r: 0, g: 0, b: 0, a: 0 }
    }
}

/// The dabs of `pimg`: each pixel of the image lands at its position shifted by (x, y),
/// unless it is fully transparent or lands outside `0..=w` by `0..=h`.
pub open spec fn rimg_fill(img: Rasterizer, x: int, y: int, w: int, h: int) -> spec_fn(int, int) -> Option<RDab> {
    |lx: int, ly: int|
        {
            let pc = rpixel(img, lx, ly);
            let px = x + lx;
            let py = y + ly;
            if pc.a == 0 || px < 0 || px > w || py < 0 || py > h {
                None
            } else {
                Some((px, py, pc))
            }
        }
}

/// The dabs of `pimg` of `img` at (x, y), row by row over the image.
pub open spec fn rimg_dabs(rc: RCanvas, img: Rasterizer, x: int, y: int) -> Seq<RDab> {
    region_dabs(0, img.height as int, 0, img.width as int, rimg_fill(img, x, y, rc.width as int, rc.height as int))
}

/// The dabs of `pimgrect`: the position (lx, ly) of the section, wrapped around the image,
/// lands at (x, y) plus its offset from the section's corner.
pub open spec fn rimg_rect_fill(img: Rasterizer, x: int, y: int, rx: int, ry: int) -> spec_fn(int, int) -> Option<RDab> {
    |lx: int, ly: int|
        {
            let mlx = lx % (img.width as int);
            let mly = ly % (img.height as int);
            Some(((x + mlx) - rx, (y + mly) - ry, rpixel(img, mlx, mly)))
        }
}

/// The section that `pimgrect` scans: `rw` by `rh` positions from (rx, ry). The section
/// is taken from the image whatever the buffer size; only the pixels it draws are clipped
/// to the buffer.
pub open spec fn rimg_rect_box(rc: RCanvas, rx: int, ry: int, rw: int, rh: int) -> (int, int, int, int) {
    (rx, rx + rw, ry, ry + rh)
}

/// The dabs of `pimgrect`.
pub open spec fn rimg_rect_dabs(rc: RCanvas, img: Rasterizer, x: int, y: int, rx: int, ry: int, rw: int, rh: int) -> Seq<RDab> {
    let b = rimg_rect_box(rc, rx, ry, rw, rh);
    region_dabs(b.2, b.3, b.0, b.1, rimg_rect_fill(img, x, y, rx, ry))
}

/// `pimgrect` can read the image for the position (lx, ly) of the section and place it
/// within `i64`.
pub open spec fn rimg_rect_cell(img: Rasterizer, x: int, y: int, rx: int, ry: int, lx: int, ly: int) -> bool {
    &&& img.width > 0
    &&& img.height > 0
    &&& fits_i64(x + lx % (img.width as int))
    &&& fits_i64(y + ly % (img.height as int))
    &&& fits_i64((x + lx % (img.width as int)) - rx)
    &&& fits_i64((y + ly % (img.height as int)) - ry)
}

/// The scan of `pimgrect` stays within `i64` and the image is not empty where it is read.
pub open spec fn rimg_rect_fits(rc: RCanvas, img: Rasterizer, x: int, y: int, rx: int, ry: int, rw: int, rh: int) -> bool {
    let b = rimg_rect_box(rc, rx, ry, rw, rh);
    forall|lx: int, ly: int| b.0 <= lx < b.1 && b.2 <= ly < b.3 ==> #[trigger] rimg_rect_cell(img, x, y, rx, ry, lx, ly)
}

/// The image's size fits `i64`, with its byte count.
pub open spec fn rimg_sized(img: Rasterizer) -> bool {
    &&& img.wf()
    &&& img.width <= i64::MAX
    &&& img.height <= i64::MAX
    &&& img.width * img.height * 4 <= i64::MAX
}

/// The bytes of `dst` after `blit` of `src` at (x, y): `src` is copied in where it fits
/// (whole, for a source of the same size at the origin), and nothing happens where it
/// does not.
pub open spec fn rblit_bytes(dst: Rasterizer, src: Rasterizer, x: int, y: int) -> Seq<u8> {
    if !(0 <= x && 0 <= y && x + src.width <= dst.width && y + src.height <= dst.height) {
        dst.color@
    } else if dst.width == src.width && dst.height == src.height {
        src.color@
    } else {
        blit_copy_spec(dst.color@, dst.width as int, src.color@, src.width as int, src.height as int, x, y)
    }
}

/// One pixel a rasterizer draws: x, y and color.
pub type RDab = (int, int, Color);

/// What drawing into a rasterizer depends on besides its pixels and count: its size, the
/// operation, the tint and the opacity.
pub struct RCanvas {
    pub width: usize,
    pub height: usize,
    pub op: PSetOp,
    pub tint: Color,
    pub opacity: u8,
}

impl RCanvas {
    /// (x, y) is a pixel of the canvas.
    pub open spec fn in_bounds(self, x: int, y: int) -> bool {
        0 <= x < self.width && 0 <= y < self.height
    }

    /// The byte index of the pixel (x, y).
    pub open spec fn index_of(self, x: int, y: int) -> int {
        (y * self.width + x) * 4
    }

    /// `pset` on (x, y) does not fail: the sizes and the index fit `i64`, the canvas is
    /// not empty, the count can grow by two and the operation does not fail there.
    pub open spec fn pset_req(self, pix: Seq<u8>, count: int, d: RDab) -> bool {
        let (x, y, c) = d;
        &&& self.width <= i64::MAX
        &&& self.height <= i64::MAX
        &&& self.width * self.height > 0
        &&& fits_i64(y * self.width)
        &&& fits_i64(y * self.width + x)
        &&& fits_i64((y * self.width + x) * 4)
        &&& count + 2 <= u64::MAX
        &&& self.in_bounds(x, y) ==> op_req(self.op, bg_at(pix, self.index_of(x, y)), c, self.tint, self.opacity)
    }

    /// The pixels and the count after `pset` of the dab `d`: every call counts, and a
    /// pixel on the canvas goes through the operation.
    pub open spec fn pset_spec(self, pix: Seq<u8>, count: int, d: RDab) -> (Seq<u8>, int) {
        let (x, y, c) = d;
        if self.in_bounds(x, y) {
            op_effect(self.op, pix, count + 1, self.index_of(x, y), c, self.tint, self.opacity)
        } else {
            (pix, count + 1)
        }
    }

    /// The pixels and the count after the dabs `ds` are set in order.
    pub open spec fn pset_seq(self, st: (Seq<u8>, int), ds: Seq<RDab>) -> (Seq<u8>, int)
        decreases ds.len(),
    {
        if ds.len() == 0 {
            st
        } else {
            let p = self.pset_seq(st, ds.drop_last());
            self.pset_spec(p.0, p.1, ds.last())
        }
    }

    /// Setting the dabs `ds` in order does not fail.
    pub open spec fn pset_seq_req(self, st: (Seq<u8>, int), ds: Seq<RDab>) -> bool
        decreases ds.len(),
    {
        if ds.len() == 0 {
            true
        } else {
            let p = self.pset_seq(st, ds.drop_last());
            self.pset_seq_req(st, ds.drop_last()) && self.pset_req(p.0, p.1, ds.last())
        }
    }
}

/// A prefix of dabs that can be set can be set.
pub proof fn lemma_pset_seq_req_prefix(rc: RCanvas, st: (Seq<u8>, int), a: Seq<RDab>, b: Seq<RDab>)
    requires
        rc.pset_seq_req(st, a + b),
    ensures
        rc.pset_seq_req(st, a),
    decreases b.len(),
{
    if b.len() == 0 {
        assert(a + b =~= a);
    } else {
        assert((a + b).drop_last() =~= a + b.drop_last());
        lemma_pset_seq_req_prefix(rc, st, a, b.drop_last());
    }
}

/// Setting two runs of dabs one after the other is setting them together.
pub proof fn lemma_pset_seq_concat(rc: RCanvas, st: (Seq<u8>, int), a: Seq<RDab>, b: Seq<RDab>)
    ensures
        rc.pset_seq(st, a + b) == rc.pset_seq(rc.pset_seq(st, a), b),
        rc.pset_seq_req(st, a + b) == (rc.pset_seq_req(st, a) && rc.pset_seq_req(rc.pset_seq(st, a), b)),
    decreases b.len(),
{
    if b.len() == 0 {
        assert(a + b =~= a);
    } else {
        assert((a + b).drop_last() =~= a + b.drop_last());
        lemma_pset_seq_concat(rc, st, a, b.drop_last());
    }
}

/// The background color at byte index `idx`: the stored channels, fully opaque.
fn read_bg(rasterizer: &Rasterizer, idx: usize) -> (bg: Color)
    requires
        idx + 3 < rasterizer.color@.len(),
    ensures
        bg == bg_at(rasterizer.color@, idx as int),
{
    let len: usize = rasterizer.color.len();
    Color::new(rasterizer.color[idx], rasterizer.color[idx + 1], rasterizer.color[idx + 2], 255)
}

/// Stores the color `c` at byte index `idx` and counts the pixel.
fn store_pixel(rasterizer: &mut Rasterizer, idx: usize, c: Color)
    requires
        idx + 3 < old(rasterizer).color@.len(),
        old(rasterizer).drawn_pixels_since_clear < u64::MAX,
    ensures
        final(rasterizer).same_setup(*old(rasterizer)),
        final(rasterizer).state() == (write_pixel(old(rasterizer).color@, idx as int, c), old(rasterizer).drawn_pixels_since_clear + 1),
{
    let len: usize = rasterizer.color.len();
    rasterizer.color.set(idx, c.r);
    rasterizer.color.set(idx + 1, c.g);
    rasterizer.color.set(idx + 2, c.b);
    rasterizer.color.set(idx + 3, c.a);
    rasterizer.drawn_pixels_since_clear = rasterizer.drawn_pixels_since_clear + 1;
}

/// Stores the incoming color as it is.
fn pset_noop(rasterizer: &mut Rasterizer, idx: usize, color: Color)
    requires
        idx + 3 < old(rasterizer).color@.len(),
        old(rasterizer).drawn_pixels_since_clear < u64::MAX,
        op_req(PSetOp::NoOp, bg_at(old(rasterizer).color@, idx as int), color, old(rasterizer).tint, old(rasterizer).opacity),
    ensures
        final(rasterizer).same_setup(*old(rasterizer)),
        final(rasterizer).state() == op_effect(
            PSetOp::NoOp,
            old(rasterizer).color@,
            old(rasterizer).drawn_pixels_since_clear as int,
            idx as int,
            color,
            old(rasterizer).tint,
            old(rasterizer).opacity,
        ),
{
        store_pixel(rasterizer, idx, color);
}

/// Stores the tinted incoming color, alpha included.
fn pset_noalpha(rasterizer: &mut Rasterizer, idx: usize, color: Color)
    requires
        idx + 3 < old(rasterizer).color@.len(),
        old(rasterizer).drawn_pixels_since_clear < u64::MAX,
        op_req(PSetOp::NoAlpha, bg_at(old(rasterizer).color@, idx as int), color, old(rasterizer).tint, old(rasterizer).opacity),
    ensures
        final(rasterizer).same_setup(*old(rasterizer)),
        final(rasterizer).state() == op_effect(
            PSetOp::NoAlpha,
            old(rasterizer).color@,
            old(rasterizer).drawn_pixels_since_clear as int,
            idx as int,
            color,
            old(rasterizer).tint,
            old(rasterizer).opacity,
        ),
{
        let color = color * rasterizer.tint;
        store_pixel(rasterizer, idx, color);
}

/// Draws pixels if they are fully opaque, otherwise ignores them.
fn pset_opaque(rasterizer: &mut Rasterizer, idx: usize, color: Color)
    requires
        idx + 3 < old(rasterizer).color@.len(),
        old(rasterizer).drawn_pixels_since_clear < u64::MAX,
        op_req(PSetOp::Opaque, bg_at(old(rasterizer).color@, idx as int), color, old(rasterizer).tint, old(rasterizer).opacity),
    ensures
        final(rasterizer).same_setup(*old(rasterizer)),
        final(rasterizer).state() == op_effect(
            PSetOp::Opaque,
            old(rasterizer).color@,
            old(rasterizer).drawn_pixels_since_clear as int,
            idx as int,
            color,
            old(rasterizer).tint,
            old(rasterizer).opacity,
        ),
{
        if color.a < 255 {
            return;
        }
        let color = color * rasterizer.tint;
        store_pixel(rasterizer, idx, color);
}

/// Draws pixels if they are fully opaque, otherwise ignores them. Forces them to be the tint
/// color; useful for flashes or making masks.
fn pset_force_tint(rasterizer: &mut Rasterizer, idx: usize, color: Color)
    requires
        idx + 3 < old(rasterizer).color@.len(),
        old(rasterizer).drawn_pixels_since_clear < u64::MAX,
        op_req(PSetOp::ForceTint, bg_at(old(rasterizer).color@, idx as int), color, old(rasterizer).tint, old(rasterizer).opacity),
    ensures
        final(rasterizer).same_setup(*old(rasterizer)),
        final(rasterizer).state() == op_effect(
            PSetOp::ForceTint,
            old(rasterizer).color@,
            old(rasterizer).drawn_pixels_since_clear as int,
            idx as int,
            color,
            old(rasterizer).tint,
            old(rasterizer).opacity,
        ),
{
        if color.a < 255 {
            return;
        }
        let tint = rasterizer.tint;
        store_pixel(rasterizer, idx, tint);
}

/// Draws pixels and blends them with the background based on the alpha channel.
fn pset_alpha(rasterizer: &mut Rasterizer, idx: usize, color: Color)
    requires
        idx + 3 < old(rasterizer).color@.len(),
        old(rasterizer).drawn_pixels_since_clear < u64::MAX,
        op_req(PSetOp::Alpha, bg_at(old(rasterizer).color@, idx as int), color, old(rasterizer).tint, old(rasterizer).opacity),
    ensures
        final(rasterizer).same_setup(*old(rasterizer)),
        final(rasterizer).state() == op_effect(
            PSetOp::Alpha,
            old(rasterizer).color@,
            old(rasterizer).drawn_pixels_since_clear as int,
            idx as int,
            color,
            old(rasterizer).tint,
            old(rasterizer).opacity,
        ),
{
        let fg = color * rasterizer.tint;
        let bg = read_bg(rasterizer, idx);
        let c = Color::blend_fast(fg, bg, rasterizer.opacity);
        store_pixel(rasterizer, idx, c);
}

/// Adds incoming and buffer pixels together.
fn pset_addition(rasterizer: &mut Rasterizer, idx: usize, color: Color)
    requires
        idx + 3 < old(rasterizer).color@.len(),
        old(rasterizer).drawn_pixels_since_clear < u64::MAX,
        op_req(PSetOp::Addition, bg_at(old(rasterizer).color@, idx as int), color, old(rasterizer).tint, old(rasterizer).opacity),
    ensures
        final(rasterizer).same_setup(*old(rasterizer)),
        final(rasterizer).state() == op_effect(
            PSetOp::Addition,
            old(rasterizer).color@,
            old(rasterizer).drawn_pixels_since_clear as int,
            idx as int,
            color,
            old(rasterizer).tint,
            old(rasterizer).opacity,
        ),
{
        if color.a == 0 {
            return;
        }
        let fg = color * rasterizer.tint;
        let bg = read_bg(rasterizer, idx);
        let c = Color::blend_fast(fg, bg, rasterizer.opacity) + bg;
        store_pixel(rasterizer, idx, c);
}

/// `bg - fg`, at least 0.
fn sub_channel(bg: u8, fg: u8) -> (v: u8)
    ensures
        v == sub_channel_spec(bg as int, fg as int),
{
    if bg >= fg {
        bg - fg
    } else {
        0
    }
}

/// `bg * 255 / fg`, at most 255; 255 where `fg` is 0.
fn div_channel(bg: u8, fg: u8) -> (v: u8)
    ensures
        v == div_channel_spec(bg as int, fg as int),
{
    if fg == 0 {
        255
    } else {
        let q: u32 = (bg as u32) * 255 / (fg as u32);
        if q > 255 {
            255
        } else {
            q as u8
        }
    }
}

/// Subtracts the blended incoming pixel from the buffer pixel, channel by channel, down to
/// 0; the result is opaque.
fn pset_subtraction(rasterizer: &mut Rasterizer, idx: usize, color: Color)
    requires
        idx + 3 < old(rasterizer).color@.len(),
        old(rasterizer).drawn_pixels_since_clear < u64::MAX,
        op_req(PSetOp::Subtraction, bg_at(old(rasterizer).color@, idx as int), color, old(rasterizer).tint, old(rasterizer).opacity),
    ensures
        final(rasterizer).same_setup(*old(rasterizer)),
        final(rasterizer).state() == op_effect(
            PSetOp::Subtraction,
            old(rasterizer).color@,
            old(rasterizer).drawn_pixels_since_clear as int,
            idx as int,
            color,
            old(rasterizer).tint,
            old(rasterizer).opacity,
        ),
{
        if color.a == 0 {
            return;
        }
        let fg = color * rasterizer.tint;
        let bg = read_bg(rasterizer, idx);
        let b = Color::blend_fast(fg, bg, rasterizer.opacity);
        let c = Color::new(sub_channel(bg.r, b.r), sub_channel(bg.g, b.g), sub_channel(bg.b, b.b), 255);
        store_pixel(rasterizer, idx, c);
}

/// Divides the buffer pixel by the blended incoming pixel, channel by channel, up to 255;
/// the result is opaque.
fn pset_divide(rasterizer: &mut Rasterizer, idx: usize, color: Color)
    requires
        idx + 3 < old(rasterizer).color@.len(),
        old(rasterizer).drawn_pixels_since_clear < u64::MAX,
        op_req(PSetOp::Divide, bg_at(old(rasterizer).color@, idx as int), color, old(rasterizer).tint, old(rasterizer).opacity),
    ensures
        final(rasterizer).same_setup(*old(rasterizer)),
        final(rasterizer).state() == op_effect(
            PSetOp::Divide,
            old(rasterizer).color@,
            old(rasterizer).drawn_pixels_since_clear as int,
            idx as int,
            color,
            old(rasterizer).tint,
            old(rasterizer).opacity,
        ),
{
        if color.a == 0 {
            return;
        }
        let fg = color * rasterizer.tint;
        let bg = read_bg(rasterizer, idx);
        let b = Color::blend_fast(fg, bg, rasterizer.opacity);
        let c = Color::new(div_channel(bg.r, b.r), div_channel(bg.g, b.g), div_channel(bg.b, b.b), 255);
        store_pixel(rasterizer, idx, c);
}

/// Multiplies the incoming pixel with the buffer pixel.
fn pset_multiply(rasterizer: &mut Rasterizer, idx: usize, color: Color)
    requires
        idx + 3 < old(rasterizer).color@.len(),
        old(rasterizer).drawn_pixels_since_clear < u64::MAX,
        op_req(PSetOp::Multiply, bg_at(old(rasterizer).color@, idx as int), color, old(rasterizer).tint, old(rasterizer).opacity),
    ensures
        final(rasterizer).same_setup(*old(rasterizer)),
        final(rasterizer).state() == op_effect(
            PSetOp::Multiply,
            old(rasterizer).color@,
            old(rasterizer).drawn_pixels_since_clear as int,
            idx as int,
            color,
            old(rasterizer).tint,
            old(rasterizer).opacity,
        ),
{
        if color.a == 0 {
            return;
        }
        let fg = color * rasterizer.tint;
        let bg = read_bg(rasterizer, idx);
        let c = Color::blend_fast(fg.inverted(), bg, rasterizer.opacity) * bg;
        store_pixel(rasterizer, idx, c);
}

/// Draws an inverted copy of the incoming pixel with alpha blending.
fn pset_inverted_alpha(rasterizer: &mut Rasterizer, idx: usize, color: Color)
    requires
        idx + 3 < old(rasterizer).color@.len(),
        old(rasterizer).drawn_pixels_since_clear < u64::MAX,
        op_req(PSetOp::InvertedAlpha, bg_at(old(rasterizer).color@, idx as int), color, old(rasterizer).tint, old(rasterizer).opacity),
    ensures
        final(rasterizer).same_setup(*old(rasterizer)),
        final(rasterizer).state() == op_effect(
            PSetOp::InvertedAlpha,
            old(rasterizer).color@,
            old(rasterizer).drawn_pixels_since_clear as int,
            idx as int,
            color,
            old(rasterizer).tint,
            old(rasterizer).opacity,
        ),
{
        if color.a == 0 {
            return;
        }
        let fg = color * rasterizer.tint;
        let bg = read_bg(rasterizer, idx);
        let c = Color::blend_fast(fg.inverted(), bg, rasterizer.opacity);
        store_pixel(rasterizer, idx, c);
}

/// Draws the inverted tinted background where the incoming pixel is opaque.
fn pset_inverted_opaque(rasterizer: &mut Rasterizer, idx: usize, color: Color)
    requires
        idx + 3 < old(rasterizer).color@.len(),
        old(rasterizer).drawn_pixels_since_clear < u64::MAX,
        op_req(PSetOp::InvertedOpaque, bg_at(old(rasterizer).color@, idx as int), color, old(rasterizer).tint, old(rasterizer).opacity),
    ensures
        final(rasterizer).same_setup(*old(rasterizer)),
        final(rasterizer).state() == op_effect(
            PSetOp::InvertedOpaque,
            old(rasterizer).color@,
            old(rasterizer).drawn_pixels_since_clear as int,
            idx as int,
            color,
            old(rasterizer).tint,
            old(rasterizer).opacity,
        ),
{
        if color.a < 255 {
            return;
        }
        let bg = read_bg(rasterizer, idx);
        let c = (bg * rasterizer.tint).inverted();
        store_pixel(rasterizer, idx, c);
}

/// Draws the inverted tinted background where the incoming pixel is opaque.
fn pset_inverted_bg_opaque(rasterizer: &mut Rasterizer, idx: usize, color: Color)
    requires
        idx + 3 < old(rasterizer).color@.len(),
        old(rasterizer).drawn_pixels_since_clear < u64::MAX,
        op_req(PSetOp::InvertedBgOpaque, bg_at(old(rasterizer).color@, idx as int), color, old(rasterizer).tint, old(rasterizer).opacity),
    ensures
        final(rasterizer).same_setup(*old(rasterizer)),
        final(rasterizer).state() == op_effect(
            PSetOp::InvertedBgOpaque,
            old(rasterizer).color@,
            old(rasterizer).drawn_pixels_since_clear as int,
            idx as int,
            color,
            old(rasterizer).tint,
            old(rasterizer).opacity,
        ),
{
        if color.a < 255 {
            return;
        }
        let bg = read_bg(rasterizer, idx);
        let c = (bg * rasterizer.tint).inverted();
        store_pixel(rasterizer, idx, c);
}

/// Blends the inverted tinted background over the background where the incoming pixel is
/// opaque.
fn pset_inverted_bg_alpha(rasterizer: &mut Rasterizer, idx: usize, color: Color)
    requires
        idx + 3 < old(rasterizer).color@.len(),
        old(rasterizer).drawn_pixels_since_clear < u64::MAX,
        op_req(PSetOp::InvertedBgAlpha, bg_at(old(rasterizer).color@, idx as int), color, old(rasterizer).tint, old(rasterizer).opacity),
    ensures
        final(rasterizer).same_setup(*old(rasterizer)),
        final(rasterizer).state() == op_effect(
            PSetOp::InvertedBgAlpha,
            old(rasterizer).color@,
            old(rasterizer).drawn_pixels_since_clear as int,
            idx as int,
            color,
            old(rasterizer).tint,
            old(rasterizer).opacity,
        ),
{
        if color.a < 255 {
            return;
        }
        let bg = read_bg(rasterizer, idx);
        let c = Color::blend_fast(bg, (bg * rasterizer.tint).inverted(), rasterizer.opacity);
        store_pixel(rasterizer, idx, c);
}

/// Drawing switchboard that draws directly into a pixel buffer. Drawing options like the
/// tint and the opacity must be changed by the user.
pub struct Rasterizer {
    pub pset_op: PSetOp,
    pub render_next_frame_as_animation: bool,
    pub render_next_frame_folder: String,
    pub offset_x: usize,
    pub offset_y: usize,
    pub width: usize,
    pub height: usize,
    pub color: Vec<u8>,
    pub draw_mode: DrawMode,
    pub tint: Color,
    pub opacity: u8,
    pub drawn_pixels_since_clear: u64,
}

impl Rasterizer {
    /// The operation incoming pixels are drawn with.
    pub open spec fn draw_op(self) -> PSetOp {
        self.pset_op
    }

    /// Whether the drawing of the next frame is to be saved.
    pub open spec fn saving_next_frame(self) -> bool {
        self.render_next_frame_as_animation
    }

    /// The folder the drawing of the next frame is saved to.
    pub open spec fn next_frame_folder(self) -> Seq<char> {
        self.render_next_frame_folder@
    }

    /// The buffer holds exactly `width * height` pixels.
    pub open spec fn wf(self) -> bool {
        self.color@.len() == self.width * self.height * 4
    }

    /// What drawing into this rasterizer depends on besides its pixels and count.
    pub open spec fn rcanvas(self) -> RCanvas {
        RCanvas { width: self.width, height: self.height, op: self.draw_op(), tint: self.tint, opacity: self.opacity }
    }

    /// The pixels and the count.
    pub open spec fn state(self) -> (Seq<u8>, int) {
        (self.color@, self.drawn_pixels_since_clear as int)
    }

    /// Everything but the pixels and the count is the same in both rasterizers.
    pub open spec fn same_setup(self, other: Rasterizer) -> bool {
        &&& self.rcanvas() == other.rcanvas()
        &&& self.offset_x == other.offset_x
        &&& self.offset_y == other.offset_y
        &&& self.draw_mode == other.draw_mode
        &&& self.saving_next_frame() == other.saving_next_frame()
        &&& self.next_frame_folder() == other.next_frame_folder()
    }

    /// Makes a new rasterizer to draw to a screen-sized buffer: all pixels transparent
    /// black, opaque drawing, a white tint and full opacity.
    ///
    /// # Arguments
    /// * 'width' - Horizontal size of the buffer
    /// * 'height' - Vertical size of the buffer
    pub fn new(width: usize, height: usize) -> (r: Rasterizer)
        requires
            width * height * 4 <= usize::MAX,
        ensures
            r.wf(),
            r.width == width,
            r.height == height,
            r.color@ == Seq::new((width * height * 4) as nat, |i: int| 0u8),
            r.draw_op() == PSetOp::Opaque,
            r.draw_mode == DrawMode::Opaque,
            r.tint == (Color { r: 255, g: 255, b: 255, a: 255 }),
            r.opacity == 255,
            r.drawn_pixels_since_clear == 0,
            r.offset_x == 0,
            r.offset_y == 0,
            !r.saving_next_frame(),
            r.next_frame_folder() == "./"@,
    {
        let n: usize = width * height * 4;
        let color: Vec<u8> = vec![0; n];
        assert(color@ =~= Seq::new((width * height * 4) as nat, |i: int| 0u8));
        let folder = "./".to_string();
        proof {
            broadcast use vstd::string::to_string_from_display_ensures_for_str;
        }
        Rasterizer {
            pset_op: PSetOp::Opaque,
            render_next_frame_as_animation: false,
            render_next_frame_folder: folder,
            offset_x: 0,
            offset_y: 0,
            width,
            height,
            color,
            draw_mode: DrawMode::Opaque,
            tint: Color::white(),
            opacity: 255,
            drawn_pixels_since_clear: 0,
        }
    }

    /// Clears the buffer and changes its width and height to new values.
    pub fn resize(&mut self, width: usize, height: usize)
        requires
            width * height * 4 <= usize::MAX,
        ensures
            final(self).wf(),
            final(self).width == width,
            final(self).height == height,
            final(self).color@ == Seq::new((width * height * 4) as nat, |i: int| 0u8),
            final(self).draw_op() == old(self).draw_op(),
            final(self).tint == old(self).tint,
            final(self).opacity == old(self).opacity,
            final(self).draw_mode == old(self).draw_mode,
            final(self).offset_x == old(self).offset_x,
            final(self).offset_y == old(self).offset_y,
            final(self).drawn_pixels_since_clear == old(self).drawn_pixels_since_clear,
            final(self).saving_next_frame() == old(self).saving_next_frame(),
            final(self).next_frame_folder() == old(self).next_frame_folder(),
    {
        self.width = width;
        self.height = height;
        self.color = vec![0; width * height * 4];
        assert(self.color@ =~= Seq::new((width * height * 4) as nat, |i: int| 0u8));
    }

    /// Sets the rasterizer's drawing mode for incoming pixels. Should be set before every
    /// drawing operation. Each mode selects its pixel operation; a pattern mode draws with
    /// the operation of the mode it is named after.
    /// # Arguments
    /// * 'mode' - Which drawing function the rasterizer should use.
    pub fn set_draw_mode(&mut self, mode: DrawMode)
        ensures
            final(self).draw_op() == mode_op(mode),
            final(self).draw_mode == mode,
            final(self).color@ == old(self).color@,
            final(self).width == old(self).width,
            final(self).height == old(self).height,
            final(self).tint == old(self).tint,
            final(self).opacity == old(self).opacity,
            final(self).offset_x == old(self).offset_x,
            final(self).offset_y == old(self).offset_y,
            final(self).drawn_pixels_since_clear == old(self).drawn_pixels_since_clear,
            final(self).saving_next_frame() == old(self).saving_next_frame(),
            final(self).next_frame_folder() == old(self).next_frame_folder(),
    {
        self.pset_op = match mode {
            DrawMode::NoOp => PSetOp::NoOp,
            DrawMode::NoAlpha => PSetOp::NoAlpha,
            DrawMode::Opaque | DrawMode::PatternOpaque => PSetOp::Opaque,
            DrawMode::Alpha | DrawMode::PatternAlpha => PSetOp::Alpha,
            DrawMode::Addition | DrawMode::PatternAddition => PSetOp::Addition,
            DrawMode::Subtraction | DrawMode::PatternSubtraction => PSetOp::Subtraction,
            DrawMode::Multiply | DrawMode::PatternMultiply => PSetOp::Multiply,
            DrawMode::Divide | DrawMode::PatternDivide => PSetOp::Divide,
            DrawMode::ForceTint => PSetOp::ForceTint,
            DrawMode::InvertedAlpha | DrawMode::PatternInvertedAlpha => PSetOp::InvertedAlpha,
            DrawMode::InvertedOpaque | DrawMode::PatternInvertedOpaque => PSetOp::InvertedOpaque,
            DrawMode::InvertedBgAlpha | DrawMode::PatternInvertedBgAlpha => PSetOp::InvertedBgAlpha,
            DrawMode::InvertedBgOpaque | DrawMode::PatternInvertedBgOpaque => PSetOp::InvertedBgOpaque,
        };
        self.draw_mode = mode;
    }

    /// Marks the drawing of the next frame to be saved, frame by frame, into a folder
    /// until the next clear.
    pub fn save_next_frame_draw_process_until_clear(&mut self, path_to: &str)
        ensures
            final(self).saving_next_frame(),
            final(self).next_frame_folder() == path_to@,
            final(self).rcanvas() == old(self).rcanvas(),
            final(self).color@ == old(self).color@,
            final(self).draw_mode == old(self).draw_mode,
            final(self).offset_x == old(self).offset_x,
            final(self).offset_y == old(self).offset_y,
            final(self).drawn_pixels_since_clear == old(self).drawn_pixels_since_clear,
    {
        self.render_next_frame_as_animation = true;
        self.render_next_frame_folder = path_to.to_string();
        proof {
            broadcast use vstd::string::to_string_from_display_ensures_for_str;
        }
    }

    /// Clears the frame memory directly, leaving a transparent black screen, and resets
    /// the count and the saving of the next frame.
    pub fn clear(&mut self)
        requires
            old(self).wf(),
        ensures
            final(self).wf(),
            final(self).rcanvas() == old(self).rcanvas(),
            final(self).offset_x == old(self).offset_x,
            final(self).offset_y == old(self).offset_y,
            final(self).draw_mode == old(self).draw_mode,
            final(self).next_frame_folder() == old(self).next_frame_folder(),
            final(self).color@ == Seq::new(old(self).color@.len(), |i: int| 0u8),
            final(self).drawn_pixels_since_clear == 0,
            !final(self).saving_next_frame(),
    {
        let len: usize = self.color.len();
        self.color = vec![0; self.width * self.height * 4];
        assert(self.color@ =~= Seq::new(old(self).color@.len(), |i: int| 0u8));
        self.drawn_pixels_since_clear = 0;
        self.render_next_frame_as_animation = false;
    }

    /// Clears the screen to a color, and resets the count and the saving of the next
    /// frame.
    /// # Arguments
    /// * 'color' - Color the screen should be cleared to.
    pub fn clear_color(&mut self, color: Color)
        requires
            old(self).wf(),
        ensures
            final(self).wf(),
            final(self).rcanvas() == old(self).rcanvas(),
            final(self).offset_x == old(self).offset_x,
            final(self).offset_y == old(self).offset_y,
            final(self).draw_mode == old(self).draw_mode,
            final(self).next_frame_folder() == old(self).next_frame_folder(),
            final(self).color@.len() == old(self).color@.len(),
            filled_with(final(self).color@, color),
            final(self).drawn_pixels_since_clear == 0,
            !final(self).saving_next_frame(),
    {
        let len: usize = self.color.len();
        let n: usize = len / 4;
        let mut i: usize = 0;
        while i < n
            invariant
                self.wf(),
                self.same_setup(*old(self)),
                self.color@.len() == old(self).color@.len(),
                self.color@.len() == n * 4,
                len == self.color@.len(),
                i <= n,
                forall|k: int| 0 <= k < i * 4 ==> #[trigger] self.color@[k] == channel(color, k % 4),
            decreases n - i,
        {
            let base: usize = i * 4;
            self.color.set(base, color.r);
            self.color.set(base + 1, color.g);
            self.color.set(base + 2, color.b);
            self.color.set(base + 3, color.a);
            assert forall|k: int| 0 <= k < (i + 1) * 4 implies #[trigger] self.color@[k] == channel(color, k % 4) by {
                if k >= i * 4 {
                    assert(k == base + (k - base));
                    assert((k - base) % 4 == k % 4) by {
                        assert(base == 4 * i);
                    }
                }
            }
            i = i + 1;
        }
        self.drawn_pixels_since_clear = 0;
        self.render_next_frame_as_animation = false;
    }

    /// Draws a pixel to the buffer with the rasterizer's operation; every call counts,
    /// whether the pixel is on the buffer or not.
    pub fn pset(&mut self, x: i64, y: i64, color: Color)
        requires
            old(self).wf(),
            old(self).rcanvas().pset_req(old(self).color@, old(self).drawn_pixels_since_clear as int, (x as int, y as int, color)),
        ensures
            final(self).wf(),
            final(self).same_setup(*old(self)),
            final(self).state() == old(self).rcanvas().pset_spec(old(self).color@, old(self).drawn_pixels_since_clear as int, (x as int, y as int, color)),
    {
        let len: usize = self.color.len();
        self.drawn_pixels_since_clear = self.drawn_pixels_since_clear + 1;
        let w: i64 = self.width as i64;
        let h: i64 = self.height as i64;
        let lin: i64 = y * w + x;
        let idx: usize = #[verifier::truncate] ((lin * 4) as usize);
        let out_left: bool = x < 0;
        let out_right: bool = x > w - 1;
        let out_top: bool = y < 0;
        let out_bottom: bool = y > h - 1;
        proof {
            if 0 <= x < self.width && 0 <= y < self.height {
                lemma_index_in_bounds(self.width as int, self.height as int, x as int, y as int);
                assert(idx as int == lin * 4);
            }
        }
        let out_of_range: bool = idx > (self.width * self.height * 4) - 1;
        if out_of_range || out_left || out_right || out_top || out_bottom {
            return;
        }
        match self.pset_op {
            PSetOp::NoOp => pset_noop(self, idx, color),
            PSetOp::NoAlpha => pset_noalpha(self, idx, color),
            PSetOp::Opaque => pset_opaque(self, idx, color),
            PSetOp::Alpha => pset_alpha(self, idx, color),
            PSetOp::Addition => pset_addition(self, idx, color),
            PSetOp::Subtraction => pset_subtraction(self, idx, color),
            PSetOp::Multiply => pset_multiply(self, idx, color),
            PSetOp::Divide => pset_divide(self, idx, color),
            PSetOp::ForceTint => pset_force_tint(self, idx, color),
            PSetOp::InvertedAlpha => pset_inverted_alpha(self, idx, color),
            PSetOp::InvertedOpaque => pset_inverted_opaque(self, idx, color),
            PSetOp::InvertedBgOpaque => pset_inverted_bg_opaque(self, idx, color),
            PSetOp::InvertedBgAlpha => pset_inverted_bg_alpha(self, idx, color),
        }
    }

    /// Gets a color from the buffer; outside the buffer it is transparent black.
    pub fn pget(&self, x: i64, y: i64) -> (c: Color)
        requires
            self.wf(),
            self.width <= i64::MAX,
            self.height <= i64::MAX,
            self.width * self.height > 0,
            fits_i64(y * self.width),
            fits_i64(y * self.width + x),
            fits_i64((y * self.width + x) * 4),
        ensures
            c == (if self.rcanvas().in_bounds(x as int, y as int) {
                read_pixel(self.color@, self.rcanvas().index_of(x as int, y as int))
            } else {
                Color { r: 0, g: 0, b: 0, a: 0 }
            }),
    {
        let len: usize = self.color.len();
        let w: i64 = self.width as i64;
        let h: i64 = self.height as i64;
        let lin: i64 = y * w + x;
        let idx: usize = #[verifier::truncate] ((lin * 4) as usize);
        let out_left: bool = x < 0;
        let out_right: bool = x > w - 1;
        let out_top: bool = y < 0;
        let out_bottom: bool = y > h - 1;
        proof {
            if 0 <= x < self.width && 0 <= y < self.height {
                lemma_index_in_bounds(self.width as int, self.height as int, x as int, y as int);
                assert(idx as int == lin * 4);
            }
        }
        let out_of_range: bool = idx > (self.width * self.height * 4) - 1;
        if out_of_range || out_left || out_right || out_top || out_bottom {
            return Color::clear();
        }
        Color::new(self.color[idx], self.color[idx + 1], self.color[idx + 2], self.color[idx + 3])
    }


    /// Draws a line across two points, each clamped to `0..=width` and `0..=height`
    /// first; every point of the line is set with `pset`.
    pub fn pline(&mut self, x0: i64, y0: i64, x1: i64, y1: i64, color: Color)
        requires
            old(self).wf(),
            old(self).width <= i64::MAX,
            old(self).height <= i64::MAX,
            old(self).rcanvas().pset_seq_req(old(self).state(), rline_dabs(old(self).rcanvas(), x0 as int, y0 as int, x1 as int, y1 as int, color)),
        ensures
            final(self).wf(),
            final(self).same_setup(*old(self)),
            final(self).state() == old(self).rcanvas().pset_seq(old(self).state(), rline_dabs(old(self).rcanvas(), x0 as int, y0 as int, x1 as int, y1 as int, color)),
    {
        let ghost rc: RCanvas = old(self).rcanvas();
        let ghost st0: (Seq<u8>, int) = old(self).state();
        let len: usize = self.color.len();
        proof {
            let wi = self.width as int;
            let hi = self.height as int;
            let ds = rline_dabs(rc, x0 as int, y0 as int, x1 as int, y1 as int, color);
            let w0 = rc.width as int;
            let h0 = rc.height as int;
            let ps = rline_points(r_clamp(x0 as int, 0, w0), r_clamp(y0 as int, 0, h0), r_clamp(x1 as int, 0, w0), r_clamp(y1 as int, 0, h0));
            assert(ps.len() >= 1);
            assert(ds.len() == ps.len());
            assert(wi * hi > 0);
            assert(2 * wi <= i64::MAX && 2 * hi <= i64::MAX) by (nonlinear_arith)
                requires
                    wi * hi * 4 <= usize::MAX,
                    wi * hi > 0,
                    wi >= 0,
                    hi >= 0,
                    usize::MAX <= 0xffff_ffff_ffff_ffff,
            {
                assert(wi >= 1 && hi >= 1);
                assert(wi <= wi * hi);
                assert(hi <= wi * hi);
            }
        }
        let w: i64 = self.width as i64;
        let h: i64 = self.height as i64;
        let x0 = clamp_i64(x0, 0, w);
        let x1 = clamp_i64(x1, 0, w);
        let y0 = clamp_i64(y0, 0, h);
        let y1 = clamp_i64(y1, 0, h);
        let mut x0 = x0;
        let mut y0 = y0;
        let dx: i64 = if x0 > x1 {
            x0 - x1
        } else {
            x1 - x0
        };
        let dy: i64 = if y0 > y1 {
            y0 - y1
        } else {
            y1 - y0
        };
        let sx: i64 = if x0 < x1 {
            1
        } else {
            -1
        };
        let sy: i64 = if y0 < y1 {
            1
        } else {
            -1
        };
        let mut err: i64 = if dx > dy {
            dx / 2
        } else {
            -(dy / 2)
        };
        let ghost all: Seq<(int, int)> = rline_points(x0 as int, y0 as int, x1 as int, y1 as int);
        let ghost mut fuel: nat = (dx + dy) as nat;
        let ghost mut done: Seq<(int, int)> = Seq::empty();
        proof {
            lemma_rline_start(x0 as int, y0 as int, x1 as int, y1 as int);
            assert(all == done + rline_from(x0 as int, y0 as int, err as int, x1 as int, y1 as int, dx as int, dy as int, sx as int, sy as int, fuel));
        }
        loop
            invariant_except_break
                self.wf(),
                self.same_setup(*old(self)),
                rc == self.rcanvas(),
                0 <= x1 <= w,
                0 <= y1 <= h,
                w as int == self.width,
                h as int == self.height,
                2 * dx <= i64::MAX,
                2 * dy <= i64::MAX,
                r_on_track(x0 as int, y0 as int, err as int, x1 as int, y1 as int, dx as int, dy as int, sx as int, sy as int),
                fuel >= (x1 - x0) * sx + (y1 - y0) * sy,
                all == done + rline_from(x0 as int, y0 as int, err as int, x1 as int, y1 as int, dx as int, dy as int, sx as int, sy as int, fuel),
                self.state() == rc.pset_seq(st0, to_rdabs(done, color)),
                rc.pset_seq_req(st0, to_rdabs(all, color)),
            ensures
                self.wf(),
                self.same_setup(*old(self)),
                self.state() == rc.pset_seq(st0, to_rdabs(all, color)),
            decreases (x1 - x0) * sx + (y1 - y0) * sy,
        {
            let ghost rest: Seq<(int, int)> = rline_from(x0 as int, y0 as int, err as int, x1 as int, y1 as int, dx as int, dy as int, sx as int, sy as int, fuel);
            let ghost tail: Seq<(int, int)> = rest.drop_first();
            proof {
                assert(rest[0] == (x0 as int, y0 as int));
                assert(all == done.push((x0 as int, y0 as int)) + tail);
                assert(to_rdabs(all, color) == to_rdabs(done.push((x0 as int, y0 as int)), color) + to_rdabs(tail, color));
                assert(to_rdabs(done.push((x0 as int, y0 as int)), color) == to_rdabs(done, color).push((x0 as int, y0 as int, color)));
                lemma_pset_seq_req_prefix(rc, st0, to_rdabs(done.push((x0 as int, y0 as int)), color), to_rdabs(tail, color));
                assert(to_rdabs(done, color).push((x0 as int, y0 as int, color)).drop_last() == to_rdabs(done, color));
            }
            self.pset(x0, y0, color);
            proof {
                done = done.push((x0 as int, y0 as int));
            }
            if x0 == x1 && y0 == y1 {
                proof {
                    assert(tail.len() == 0);
                    assert(all == done);
                }
                break;
            }
            proof {
                lemma_r_step(x0 as int, y0 as int, err as int, x1 as int, y1 as int, dx as int, dy as int, sx as int, sy as int);
            }
            let e2: i64 = 2 * err;
            if e2 > -dx {
                err = err - dy;
                x0 = x0 + sx;
            }
            if e2 < dy {
                err = err + dx;
                y0 = y0 + sy;
            }
            proof {
                fuel = (fuel - 1) as nat;
            }
        }
    }

    /// Returns the pixel positions of the line between two points, in drawing order,
    /// without drawing them. The rasterizer is not changed.
    pub fn cline(&mut self, x0: i64, y0: i64, x1: i64, y1: i64) -> (pixels: Vec<(i64, i64)>)
        requires
            rline_fits(x0 as int, y0 as int, x1 as int, y1 as int),
        ensures
            *final(self) == *old(self),
            pixels@.len() == rline_points(x0 as int, y0 as int, x1 as int, y1 as int).len(),
            forall|i: int|
                0 <= i < pixels@.len() ==> (#[trigger] pixels@[i].0 as int, pixels@[i].1 as int) == rline_points(
                    x0 as int,
                    y0 as int,
                    x1 as int,
                    y1 as int,
                )[i],
    {
        let mut pixels: Vec<(i64, i64)> = Vec::new();
        let ghost ox0: int = x0 as int;
        let ghost oy0: int = y0 as int;
        let mut x0 = x0;
        let mut y0 = y0;
        let dx: i64 = if x0 > x1 {
            x0 - x1
        } else {
            x1 - x0
        };
        let dy: i64 = if y0 > y1 {
            y0 - y1
        } else {
            y1 - y0
        };
        let sx: i64 = if x0 < x1 {
            1
        } else {
            -1
        };
        let sy: i64 = if y0 < y1 {
            1
        } else {
            -1
        };
        let mut err: i64 = if dx > dy {
            dx / 2
        } else {
            -(dy / 2)
        };
        let ghost all: Seq<(int, int)> = rline_points(x0 as int, y0 as int, x1 as int, y1 as int);
        let ghost mut fuel: nat = (dx + dy) as nat;
        proof {
            lemma_rline_start(x0 as int, y0 as int, x1 as int, y1 as int);
        }
        loop
            invariant_except_break
                r_on_track(x0 as int, y0 as int, err as int, x1 as int, y1 as int, dx as int, dy as int, sx as int, sy as int),
                dx as int == r_abs(x1 - ox0),
                dy as int == r_abs(y1 - oy0),
                2 * dx <= i64::MAX,
                2 * dy <= i64::MAX,
                (x1 - x0) * sx >= 0,
                fuel >= (x1 - x0) * sx + (y1 - y0) * sy,
                all == pixels@.map_values(|p: (i64, i64)| (p.0 as int, p.1 as int)) + rline_from(x0 as int, y0 as int, err as int, x1 as int, y1 as int, dx as int, dy as int, sx as int, sy as int, fuel),
            ensures
                all == pixels@.map_values(|p: (i64, i64)| (p.0 as int, p.1 as int)),
            decreases (x1 - x0) * sx + (y1 - y0) * sy,
        {
            let ghost rest: Seq<(int, int)> = rline_from(x0 as int, y0 as int, err as int, x1 as int, y1 as int, dx as int, dy as int, sx as int, sy as int, fuel);
            let ghost before: Seq<(int, int)> = pixels@.map_values(|p: (i64, i64)| (p.0 as int, p.1 as int));
            pixels.push((x0, y0));
            proof {
                assert(rest[0] == (x0 as int, y0 as int));
                assert(pixels@.map_values(|p: (i64, i64)| (p.0 as int, p.1 as int)) == before.push((x0 as int, y0 as int)));
                assert(all == before.push((x0 as int, y0 as int)) + rest.drop_first());
            }
            if x0 == x1 && y0 == y1 {
                break;
            }
            proof {
                lemma_r_step(x0 as int, y0 as int, err as int, x1 as int, y1 as int, dx as int, dy as int, sx as int, sy as int);
            }
            let e2: i64 = 2 * err;
            if e2 > -dx {
                err = err - dy;
                x0 = x0 + sx;
            }
            if e2 < dy {
                err = err + dx;
                y0 = y0 + sy;
            }
            proof {
                fuel = (fuel - 1) as nat;
            }
        }
        pixels
    }


    /// Draws a rectangle onto the screen, filled or outlined. Its corners are clamped to
    /// `0..=width` and `0..=height`; a filled rectangle sets the pixels in the clamped box,
    /// an outline its edges, the top and bottom edges one pixel longer.
    pub fn prectangle(&mut self, filled: bool, x: i64, y: i64, w: i64, h: i64, color: Color)
        requires
            old(self).wf(),
            old(self).width <= i64::MAX,
            old(self).height <= i64::MAX,
            fits_i64(x + w),
            fits_i64(y + h),
            old(self).rcanvas().pset_seq_req(old(self).state(), rrect_dabs(old(self).rcanvas(), filled, x as int, y as int, w as int, h as int, color)),
        ensures
            final(self).wf(),
            final(self).same_setup(*old(self)),
            final(self).state() == old(self).rcanvas().pset_seq(old(self).state(), rrect_dabs(old(self).rcanvas(), filled, x as int, y as int, w as int, h as int, color)),
    {
        let ghost rc: RCanvas = old(self).rcanvas();
        let ghost st0: (Seq<u8>, int) = old(self).state();
        let x0 = clamp_i64(x, 0, self.width as i64);
        let x1 = clamp_i64(x + w, 0, self.width as i64);
        let y0 = clamp_i64(y, 0, self.height as i64);
        let y1 = clamp_i64(y + h, 0, self.height as i64);
        if filled {
            let ghost f = rsolid(color);
            let mut py: i64 = y0;
            while py < y1
                invariant
                    self.wf(),
                    self.same_setup(*old(self)),
                    rc == self.rcanvas(),
                    f == rsolid(color),
                    y0 <= py,
                    y0 <= y1 ==> py <= y1,
                    y1 < y0 ==> py == y0,
                    self.state() == rc.pset_seq(st0, region_dabs(y0 as int, py as int, x0 as int, x1 as int, f)),
                    rc.pset_seq_req(st0, region_dabs(y0 as int, y1 as int, x0 as int, x1 as int, f)),
                decreases y1 - py,
            {
                let mut px: i64 = x0;
                while px < x1
                    invariant
                        self.wf(),
                        self.same_setup(*old(self)),
                        rc == self.rcanvas(),
                        f == rsolid(color),
                        y0 <= py < y1,
                        x0 <= px,
                        x0 <= x1 ==> px <= x1,
                        x1 < x0 ==> px == x0,
                        self.state() == rc.pset_seq(st0, region_dabs(y0 as int, py as int, x0 as int, x1 as int, f) + row_dabs(py as int, x0 as int, px as int, f)),
                        rc.pset_seq_req(st0, region_dabs(y0 as int, y1 as int, x0 as int, x1 as int, f)),
                    decreases x1 - px,
                {
                    proof {
                        lemma_rfill_step(rc, st0, y0 as int, py as int, y1 as int, x0 as int, px as int, x1 as int, f);
                        let cur = region_dabs(y0 as int, py as int, x0 as int, x1 as int, f) + row_dabs(py as int, x0 as int, px as int, f);
                        assert(cur.push((px as int, py as int, color)).drop_last() =~= cur);
                    }
                    self.pset(px, py, color);
                    px = px + 1;
                }
                proof {
                    if x1 < x0 {
                        assert(row_dabs(py as int, x0 as int, px as int, f) =~= row_dabs(py as int, x0 as int, x1 as int, f));
                    }
                }
                py = py + 1;
            }
            proof {
                if y1 < y0 {
                    assert(region_dabs(y0 as int, py as int, x0 as int, x1 as int, f) =~= region_dabs(y0 as int, y1 as int, x0 as int, x1 as int, f));
                }
            }
        } else {
            let ghost gt = |t: int| seq![(t, y0 as int, color), (t, y1 as int, color)];
            let ghost gs = |v: int| seq![(x0 as int, v, color), (x1 as int, v, color)];
            let ghost tops_all = runs(x0 as int, x1 + 1, gt);
            let ghost sides_all = runs(y0 as int, y1 as int, gs);
            assert(rrect_dabs(rc, false, x as int, y as int, w as int, h as int, color) == tops_all + sides_all);
            proof {
                lemma_pset_seq_concat(rc, st0, tops_all, sides_all);
            }
            let end: i64 = x1 + 1;
            let mut tops: i64 = x0;
            while tops < end
                invariant
                    self.wf(),
                    self.same_setup(*old(self)),
                    rc == self.rcanvas(),
                    gt == (|t: int| seq![(t, y0 as int, color), (t, y1 as int, color)]),
                    tops_all == runs(x0 as int, end as int, gt),
                    end == x1 + 1,
                    x0 <= tops,
                    x0 <= end ==> tops <= end,
                    end < x0 ==> tops == x0,
                    self.state() == rc.pset_seq(st0, runs(x0 as int, tops as int, gt)),
                    rc.pset_seq_req(st0, tops_all),
                decreases end - tops,
            {
                proof {
                    lemma_runs_split(x0 as int, tops + 1, end as int, gt);
                    lemma_pset_seq_req_prefix(rc, st0, runs(x0 as int, tops + 1, gt), runs(tops + 1, end as int, gt));
                    assert(runs(x0 as int, tops + 1, gt) == runs(x0 as int, tops as int, gt) + seq![(tops as int, y0 as int, color), (tops as int, y1 as int, color)]);
                    lemma_pset_two(rc, st0, runs(x0 as int, tops as int, gt), (tops as int, y0 as int, color), (tops as int, y1 as int, color));
                }
                self.pset(tops, y0, color);
                self.pset(tops, y1, color);
                tops = tops + 1;
            }
            proof {
                if end < x0 {
                    assert(runs(x0 as int, tops as int, gt) =~= runs(x0 as int, end as int, gt));
                }
            }
            let ghost st1 = self.state();
            let mut sides: i64 = y0;
            while sides < y1
                invariant
                    self.wf(),
                    self.same_setup(*old(self)),
                    rc == self.rcanvas(),
                    gs == (|v: int| seq![(x0 as int, v, color), (x1 as int, v, color)]),
                    sides_all == runs(y0 as int, y1 as int, gs),
                    y0 <= sides,
                    y0 <= y1 ==> sides <= y1,
                    y1 < y0 ==> sides == y0,
                    self.state() == rc.pset_seq(st1, runs(y0 as int, sides as int, gs)),
                    rc.pset_seq_req(st1, sides_all),
                decreases y1 - sides,
            {
                proof {
                    lemma_runs_split(y0 as int, sides + 1, y1 as int, gs);
                    lemma_pset_seq_req_prefix(rc, st1, runs(y0 as int, sides + 1, gs), runs(sides + 1, y1 as int, gs));
                    assert(runs(y0 as int, sides + 1, gs) == runs(y0 as int, sides as int, gs) + seq![(x0 as int, sides as int, color), (x1 as int, sides as int, color)]);
                    lemma_pset_two(rc, st1, runs(y0 as int, sides as int, gs), (x0 as int, sides as int, color), (x1 as int, sides as int, color));
                }
                self.pset(x0, sides, color);
                self.pset(x1, sides, color);
                sides = sides + 1;
            }
            proof {
                if y1 < y0 {
                    assert(runs(y0 as int, sides as int, gs) =~= runs(y0 as int, y1 as int, gs));
                }
            }
        }
    }


    /// Sets the eight points of a midpoint circle step: (x, y) mirrored into every octant
    /// around (xc, yc).
    fn pset_octants(&mut self, xc: i64, yc: i64, x: i64, y: i64, color: Color)
        requires
            old(self).wf(),
            fits_i64(xc + x),
            fits_i64(xc - x),
            fits_i64(yc + y),
            fits_i64(yc - y),
            fits_i64(xc + y),
            fits_i64(xc - y),
            fits_i64(yc + x),
            fits_i64(yc - x),
            old(self).rcanvas().pset_seq_req(old(self).state(), to_rdabs(octants(xc as int, yc as int, x as int, y as int), color)),
        ensures
            final(self).wf(),
            final(self).same_setup(*old(self)),
            final(self).state() == old(self).rcanvas().pset_seq(old(self).state(), to_rdabs(octants(xc as int, yc as int, x as int, y as int), color)),
    {
        let ghost rc: RCanvas = old(self).rcanvas();
        let ghost st0: (Seq<u8>, int) = old(self).state();
        let ghost ds: Seq<RDab> = to_rdabs(octants(xc as int, yc as int, x as int, y as int), color);
        assert(ds.len() == 8);
        assert(ds.take(0) =~= Seq::<RDab>::empty());
        proof {
            lemma_pset_seq_step(rc, st0, ds, 0);
        }
        self.pset(xc + x, yc + y, color);
        proof {
            lemma_pset_seq_step(rc, st0, ds, 1);
        }
        self.pset(xc - x, yc + y, color);
        proof {
            lemma_pset_seq_step(rc, st0, ds, 2);
        }
        self.pset(xc + x, yc - y, color);
        proof {
            lemma_pset_seq_step(rc, st0, ds, 3);
        }
        self.pset(xc - x, yc - y, color);
        proof {
            lemma_pset_seq_step(rc, st0, ds, 4);
        }
        self.pset(xc + y, yc + x, color);
        proof {
            lemma_pset_seq_step(rc, st0, ds, 5);
        }
        self.pset(xc - y, yc + x, color);
        proof {
            lemma_pset_seq_step(rc, st0, ds, 6);
        }
        self.pset(xc + y, yc - x, color);
        proof {
            lemma_pset_seq_step(rc, st0, ds, 7);
        }
        self.pset(xc - y, yc - x, color);
        assert(ds.take(8) =~= ds);
    }

    /// Draws a circle onto the screen, filled or outlined. A filled circle sets the pixels
    /// of its clamped box within the radius; an outline sets the points of the midpoint
    /// circle.
    pub fn pcircle(&mut self, filled: bool, xc: i64, yc: i64, r: i64, color: Color)
        requires
            old(self).wf(),
            old(self).width <= i64::MAX,
            old(self).height <= i64::MAX,
            fits_i64(xc - r),
            fits_i64(xc + r),
            fits_i64(xc + r + 1),
            fits_i64(yc - r),
            fits_i64(yc + r),
            fits_i64(yc + r + 1),
            filled ==> rdisc_fits(old(self).rcanvas(), xc as int, yc as int, r as int),
            !filled ==> rcircle_outline_fits(xc as int, yc as int, r as int),
            old(self).rcanvas().pset_seq_req(old(self).state(), rcircle_dabs(old(self).rcanvas(), filled, xc as int, yc as int, r as int, color)),
        ensures
            final(self).wf(),
            final(self).same_setup(*old(self)),
            final(self).state() == old(self).rcanvas().pset_seq(old(self).state(), rcircle_dabs(old(self).rcanvas(), filled, xc as int, yc as int, r as int, color)),
    {
        let ghost rc: RCanvas = old(self).rcanvas();
        let ghost st0: (Seq<u8>, int) = old(self).state();
        let minx = clamp_i64(xc - r, 0, self.width as i64);
        let maxx = clamp_i64((xc + r) + 1, 0, self.width as i64);
        let miny = clamp_i64(yc - r, 0, self.height as i64);
        let maxy = clamp_i64((yc + r) + 1, 0, self.height as i64);
        if filled {
            let ghost f = rdisc_fill(xc as int, yc as int, r as int, color);
            let mut py: i64 = miny;
            while py < maxy
                invariant
                    self.wf(),
                    self.same_setup(*old(self)),
                    rc == self.rcanvas(),
                    f == rdisc_fill(xc as int, yc as int, r as int, color),
                    (minx as int, maxx as int, miny as int, maxy as int) == rcircle_box(rc, xc as int, yc as int, r as int),
                    rdisc_fits(rc, xc as int, yc as int, r as int),
                    miny <= py,
                    miny <= maxy ==> py <= maxy,
                    maxy < miny ==> py == miny,
                    self.state() == rc.pset_seq(st0, region_dabs(miny as int, py as int, minx as int, maxx as int, f)),
                    rc.pset_seq_req(st0, region_dabs(miny as int, maxy as int, minx as int, maxx as int, f)),
                decreases maxy - py,
            {
                let mut px: i64 = minx;
                while px < maxx
                    invariant
                        self.wf(),
                        self.same_setup(*old(self)),
                        rc == self.rcanvas(),
                        f == rdisc_fill(xc as int, yc as int, r as int, color),
                        (minx as int, maxx as int, miny as int, maxy as int) == rcircle_box(rc, xc as int, yc as int, r as int),
                        rdisc_fits(rc, xc as int, yc as int, r as int),
                        miny <= py < maxy,
                        minx <= px,
                        minx <= maxx ==> px <= maxx,
                        maxx < minx ==> px == minx,
                        self.state() == rc.pset_seq(st0, region_dabs(miny as int, py as int, minx as int, maxx as int, f) + row_dabs(py as int, minx as int, px as int, f)),
                        rc.pset_seq_req(st0, region_dabs(miny as int, maxy as int, minx as int, maxx as int, f)),
                    decreases maxx - px,
                {
                    proof {
                        lemma_rfill_step(rc, st0, miny as int, py as int, maxy as int, minx as int, px as int, maxx as int, f);
                        let cur = region_dabs(miny as int, py as int, minx as int, maxx as int, f) + row_dabs(py as int, minx as int, px as int, f);
                        assert(cur.push((px as int, py as int, color)).drop_last() =~= cur);
                        assert(fits_i64((px - xc) * (px - xc) + (py - yc) * (py - yc)));
                    }
                    if ((px - xc) * (px - xc)) + ((py - yc) * (py - yc)) <= r * r {
                        self.pset(px, py, color);
                    }
                    px = px + 1;
                }
                proof {
                    if maxx < minx {
                        assert(row_dabs(py as int, minx as int, px as int, f) =~= row_dabs(py as int, minx as int, maxx as int, f));
                    }
                }
                py = py + 1;
            }
            proof {
                if maxy < miny {
                    assert(region_dabs(miny as int, py as int, minx as int, maxx as int, f) =~= region_dabs(miny as int, maxy as int, minx as int, maxx as int, f));
                }
            }
        } else {
            let ghost fuel0: nat = if r >= 0 {
                (r + 1) as nat
            } else {
                0
            };
            let ghost first: Seq<(int, int)> = octants(xc as int, yc as int, 0, r as int);
            let ghost all: Seq<(int, int)> = circle_points(xc as int, yc as int, r as int);
            let mut x: i64 = 0;
            let mut y: i64 = r;
            let mut d: i64 = 3 - 2 * r;
            proof {
                lemma_pset_seq_concat(rc, st0, to_rdabs(first, color), to_rdabs(circle_from(xc as int, yc as int, 0, r as int, 3 - 2 * r, fuel0), color));
                assert(to_rdabs(all, color) == to_rdabs(first, color) + to_rdabs(circle_from(xc as int, yc as int, 0, r as int, 3 - 2 * r, fuel0), color));
            }
            self.pset_octants(xc, yc, x, y, color);
            let ghost mut fuel: nat = fuel0;
            let ghost mut done: Seq<(int, int)> = first;
            proof {
                assert(circle_decision(0, r as int, r as int) == 3 - 2 * r) by (nonlinear_arith);
            }
            while y >= x
                invariant
                    self.wf(),
                    self.same_setup(*old(self)),
                    rc == self.rcanvas(),
                    rcircle_outline_fits(xc as int, yc as int, r as int),
                    all == circle_points(xc as int, yc as int, r as int),
                    0 <= x,
                    r >= 0 ==> x <= r + 1 && -1 <= y <= r,
                    r < 0 ==> x == 0 && y == r,
                    d as int == circle_decision(x as int, y as int, r as int),
                    r >= 0 ==> fuel == r + 1 - x,
                    r < 0 ==> fuel == 0,
                    all == done + circle_from(xc as int, yc as int, x as int, y as int, d as int, fuel),
                    self.state() == rc.pset_seq(st0, to_rdabs(done, color)),
                    rc.pset_seq_req(st0, to_rdabs(all, color)),
                decreases r + 1 - x,
            {
                let ghost rest = circle_from(xc as int, yc as int, x as int, y as int, d as int, fuel);
                proof {
                    lemma_circle_decision_bound(x as int, y as int, r as int);
                    assert(r >= 0);
                    assert(4 * (r + 3) <= 8 * (r + 2) * (r + 2) + 64) by (nonlinear_arith)
                        requires
                            r >= 0,
                    ;
                }
                x = x + 1;
                if d > 0 {
                    y = y - 1;
                    proof {
                        lemma_circle_decision_bound(x as int, y as int, r as int);
                        assert(d + 4 * (x - y) + 10 == circle_decision(x as int, y as int, r as int)) by (nonlinear_arith)
                            requires
                                d as int == circle_decision(x - 1, y + 1, r as int),
                        ;
                    }
                    d = d + 4 * (x - y) + 10;
                } else {
                    proof {
                        lemma_circle_decision_bound(x as int, y as int, r as int);
                        assert(d + 4 * x + 6 == circle_decision(x as int, y as int, r as int)) by (nonlinear_arith)
                            requires
                                d as int == circle_decision(x - 1, y as int, r as int),
                        ;
                    }
                    d = d + 4 * x + 6;
                }
                proof {
                    let step = octants(xc as int, yc as int, x as int, y as int);
                    assert(rest == step + circle_from(xc as int, yc as int, x as int, y as int, d as int, (fuel - 1) as nat));
                    assert(all == (done + step) + circle_from(xc as int, yc as int, x as int, y as int, d as int, (fuel - 1) as nat));
                    assert(to_rdabs(all, color) == to_rdabs(done, color) + to_rdabs(step, color) + to_rdabs(circle_from(xc as int, yc as int, x as int, y as int, d as int, (fuel - 1) as nat), color));
                    lemma_pset_seq_req_prefix(rc, st0, to_rdabs(done, color) + to_rdabs(step, color), to_rdabs(circle_from(xc as int, yc as int, x as int, y as int, d as int, (fuel - 1) as nat), color));
                    lemma_pset_seq_concat(rc, st0, to_rdabs(done, color), to_rdabs(step, color));
                    assert(to_rdabs(done + step, color) == to_rdabs(done, color) + to_rdabs(step, color));
                }
                self.pset_octants(xc, yc, x, y, color);
                proof {
                    done = done + octants(xc as int, yc as int, x as int, y as int);
                    fuel = (fuel - 1) as nat;
                }
            }
            proof {
                assert(circle_from(xc as int, yc as int, x as int, y as int, d as int, fuel) =~= Seq::<(int, int)>::empty());
                assert(all =~= done);
            }
        }
    }


    /// Draws a triangle. A filled triangle collects the pixels of its three edges without
    /// drawing them, sorts them into the rows of the buffer, and draws on each row a line
    /// from the first to the last of them; an outline draws its three edges.
    pub fn ptriangle(&mut self, filled: bool, x1: i64, y1: i64, x2: i64, y2: i64, x3: i64, y3: i64, color: Color)
        requires
            old(self).wf(),
            old(self).width <= i64::MAX,
            old(self).height <= i64::MAX,
            filled ==> rline_fits(x1 as int, y1 as int, x2 as int, y2 as int),
            filled ==> rline_fits(x2 as int, y2 as int, x3 as int, y3 as int),
            filled ==> rline_fits(x3 as int, y3 as int, x1 as int, y1 as int),
            old(self).rcanvas().pset_seq_req(old(self).state(), rtri_dabs(old(self).rcanvas(), filled, x1 as int, y1 as int, x2 as int, y2 as int, x3 as int, y3 as int, color)),
        ensures
            final(self).wf(),
            final(self).same_setup(*old(self)),
            final(self).state() == old(self).rcanvas().pset_seq(old(self).state(), rtri_dabs(old(self).rcanvas(), filled, x1 as int, y1 as int, x2 as int, y2 as int, x3 as int, y3 as int, color)),
    {
        let ghost rc: RCanvas = old(self).rcanvas();
        let ghost st0: (Seq<u8>, int) = old(self).state();
        if filled {
            let ghost edges: Seq<(int, int)> = tri_edges(x1 as int, y1 as int, x2 as int, y2 as int, x3 as int, y3 as int);
            let mut vl12 = self.cline(x1, y1, x2, y2);
            let mut vl23 = self.cline(x2, y2, x3, y3);
            let mut vl31 = self.cline(x3, y3, x1, y1);
            let mut edge_pixels: Vec<(i64, i64)> = Vec::new();
            edge_pixels.append(&mut vl12);
            edge_pixels.append(&mut vl23);
            edge_pixels.append(&mut vl31);
            proof {
                assert(int_pairs(edge_pixels@) =~= edges);
            }
            let h: usize = self.height;
            let mut scanline_rows: Vec<Vec<(i64, i64)>> = Vec::new();
            let mut r: usize = 0;
            while r < h
                invariant
                    scanline_rows@.len() == r,
                    r <= h,
                    forall|y: int| 0 <= y < r ==> (#[trigger] scanline_rows@[y])@.len() == 0,
                decreases h - r,
            {
                scanline_rows.push(Vec::new());
                r = r + 1;
            }
            let n: usize = edge_pixels.len();
            let mut k: usize = 0;
            while k < n
                invariant
                    n == edge_pixels@.len(),
                    int_pairs(edge_pixels@) == edges,
                    h == self.height,
                    h <= i64::MAX,
                    scanline_rows@.len() == h,
                    k <= n,
                    forall|y: int| 0 <= y < h ==> int_pairs((#[trigger] scanline_rows@[y])@) == row_of(edges.take(k as int), y),
                decreases n - k,
            {
                let p: (i64, i64) = edge_pixels[k];
                let ghost ip: (int, int) = (p.0 as int, p.1 as int);
                proof {
                    assert(edges[k as int] == ip);
                    assert(edges.take(k + 1).drop_last() =~= edges.take(k as int));
                    assert(edges.take(k + 1).last() == ip);
                    assert(edges.take(k + 1) =~= edges.take(k as int).push(ip));
                    assert forall|y: int| #![trigger row_of(edges.take(k + 1), y)] true implies row_of(edges.take(k + 1), y) == if ip.1 == y {
                        row_of(edges.take(k as int), y).push(ip)
                    } else {
                        row_of(edges.take(k as int), y)
                    } by {
                        lemma_row_of_push(edges.take(k as int), ip, y);
                    }
                }
                if p.1 >= 0 && p.1 < self.height as i64 {
                    let row_idx: usize = p.1 as usize;
                    let ghost before = scanline_rows@[row_idx as int]@;
                    scanline_rows[row_idx].push(p);
                    proof {
                        assert(int_pairs(scanline_rows@[row_idx as int]@) =~= int_pairs(before).push(ip));
                        assert forall|y: int| 0 <= y < h implies int_pairs((#[trigger] scanline_rows@[y])@) == row_of(edges.take(k + 1), y) by {
                            assert(row_of(edges.take(k + 1), y) == if ip.1 == y {
                                row_of(edges.take(k as int), y).push(ip)
                            } else {
                                row_of(edges.take(k as int), y)
                            });
                        }
                    }
                } else {
                    proof {
                        assert forall|y: int| 0 <= y < h implies int_pairs((#[trigger] scanline_rows@[y])@) == row_of(edges.take(k + 1), y) by {
                            assert(row_of(edges.take(k + 1), y) == row_of(edges.take(k as int), y));
                        }
                    }
                }
                k = k + 1;
            }
            proof {
                assert(edges.take(n as int) =~= edges);
            }
            let ghost g = |y: int| tri_span(rc, edges, y, color);
            let mut row: usize = 0;
            while row < h
                invariant
                    self.wf(),
                    self.same_setup(*old(self)),
                    rc == self.rcanvas(),
                    self.width <= i64::MAX,
                    self.height <= i64::MAX,
                    h == self.height,
                    scanline_rows@.len() == h,
                    forall|y: int| 0 <= y < h ==> int_pairs((#[trigger] scanline_rows@[y])@) == row_of(edges, y),
                    g == (|y: int| tri_span(rc, edges, y, color)),
                    row <= h,
                    self.state() == rc.pset_seq(st0, runs(0, row as int, g)),
                    rc.pset_seq_req(st0, runs(0, h as int, g)),
                decreases h - row,
            {
                let ghost span = tri_span(rc, edges, row as int, color);
                proof {
                    lemma_runs_split(0, row + 1, h as int, g);
                    lemma_pset_seq_req_prefix(rc, st0, runs(0, row + 1, g), runs(row + 1, h as int, g));
                    assert(runs(0, row + 1, g) == runs(0, row as int, g) + span);
                    lemma_pset_seq_concat(rc, st0, runs(0, row as int, g), span);
                }
                let len: usize = scanline_rows[row].len();
                if len != 0 {
                    let ghost rw = row_of(edges, row as int);
                    let first: (i64, i64) = scanline_rows[row][0];
                    let mut lo: i64 = first.0;
                    let mut hi: i64 = first.0;
                    let height: i64 = first.1;
                    proof {
                        assert(int_pairs(scanline_rows@[row as int]@) == rw);
                        assert(rw[0] == (first.0 as int, first.1 as int));
                        assert(rw.len() == len);
                        edges.lemma_filter_pred(on_row(row as int), 0);
                        assert(height as int == row as int);
                        assert(rw.take(1).len() == 1);
                        assert(rw.take(1)[0] == rw[0]);
                    }
                    let mut j: usize = 1;
                    while j < len
                        invariant
                            1 <= j <= len,
                            len == scanline_rows@[row as int]@.len(),
                            row < h,
                            scanline_rows@.len() == h,
                            int_pairs(scanline_rows@[row as int]@) == rw,
                            rw.len() == len,
                            lo as int == min_x(rw.take(j as int)),
                            hi as int == max_x(rw.take(j as int)),
                        decreases len - j,
                    {
                        let p: (i64, i64) = scanline_rows[row][j];
                        proof {
                            assert(rw[j as int] == (p.0 as int, p.1 as int));
                            assert(rw.take(j + 1).drop_last() =~= rw.take(j as int));
                            assert(rw.take(j + 1).last() == rw[j as int]);
                        }
                        if p.0 < lo {
                            lo = p.0;
                        }
                        if p.0 > hi {
                            hi = p.0;
                        }
                        j = j + 1;
                    }
                    proof {
                        assert(rw.take(len as int) =~= rw);
                    }
                    self.pline(lo, height, hi, height, color);
                } else {
                    proof {
                        assert(int_pairs(scanline_rows@[row as int]@).len() == 0);
                        assert(span =~= Seq::<RDab>::empty());
                        assert(runs(0, row as int, g) + span =~= runs(0, row as int, g));
                    }
                }
                row = row + 1;
            }
        } else {
            let ghost a = rline_dabs(rc, x1 as int, y1 as int, x2 as int, y2 as int, color);
            let ghost b = rline_dabs(rc, x1 as int, y1 as int, x3 as int, y3 as int, color);
            let ghost c = rline_dabs(rc, x2 as int, y2 as int, x3 as int, y3 as int, color);
            proof {
                lemma_pset_seq_concat(rc, st0, a + b, c);
                lemma_pset_seq_concat(rc, st0, a, b);
            }
            self.pline(x1, y1, x2, y2, color);
            self.pline(x1, y1, x3, y3, color);
            self.pline(x2, y2, x3, y3, color);
        }
    }


    /// Copies `src` into this rasterizer with its top-left corner at (x, y). A source that
    /// does not fit inside at (x, y) is not drawn; one of the same size fits only at
    /// (0, 0), where it is copied whole.
    pub fn blit(&mut self, src: &Rasterizer, x: i64, y: i64)
        requires
            old(self).wf(),
            src.wf(),
            x >= 0 ==> x + src.width <= usize::MAX,
            y >= 0 ==> y + src.height <= usize::MAX,
            !(old(self).width == src.width && old(self).height == src.height) && 0 <= x && 0 <= y && x + src.width <= old(self).width
                && y + src.height <= old(self).height ==> src.width > 0,
        ensures
            final(self).wf(),
            final(self).same_setup(*old(self)),
            final(self).drawn_pixels_since_clear == old(self).drawn_pixels_since_clear,
            final(self).color@ == rblit_bytes(*old(self), *src, x as int, y as int),
    {
        if x < 0 || y < 0 {
            return;
        }
        let extent_width: usize = x as usize + src.width;
        let extent_height: usize = y as usize + src.height;
        if extent_width > self.width || extent_height > self.height {
            return;
        }
        if self.width == src.width && self.height == src.height {
            self.color = src.color.clone();
            assert(self.color@ =~= src.color@);
            return;
        }
        copy_rect(&mut self.color, self.width, self.height, &src.color, src.width, src.height, x as usize, y as usize);
    }

    /// Draws an image directly to the screen with its top-left corner at (x, y); fully
    /// transparent pixels, and pixels landing outside `0..=width` by `0..=height`, are
    /// skipped.
    pub fn pimg(&mut self, image: &Rasterizer, x: i64, y: i64)
        requires
            old(self).wf(),
            old(self).width <= i64::MAX,
            old(self).height <= i64::MAX,
            rimg_sized(*image),
            x + image.width <= i64::MAX,
            y + image.height <= i64::MAX,
            old(self).rcanvas().pset_seq_req(old(self).state(), rimg_dabs(old(self).rcanvas(), *image, x as int, y as int)),
        ensures
            final(self).wf(),
            final(self).same_setup(*old(self)),
            final(self).state() == old(self).rcanvas().pset_seq(old(self).state(), rimg_dabs(old(self).rcanvas(), *image, x as int, y as int)),
    {
        let ghost rc: RCanvas = old(self).rcanvas();
        let ghost st0: (Seq<u8>, int) = old(self).state();
        let ghost f = rimg_fill(*image, x as int, y as int, rc.width as int, rc.height as int);
        let ih: i64 = image.height as i64;
        let mut ly: i64 = 0;
        while ly < ih
            invariant
                self.wf(),
                self.same_setup(*old(self)),
                rc == self.rcanvas(),
                self.width <= i64::MAX,
                self.height <= i64::MAX,
                rimg_sized(*image),
                x + image.width <= i64::MAX,
                y + image.height <= i64::MAX,
                ih as int == image.height,
                f == rimg_fill(*image, x as int, y as int, rc.width as int, rc.height as int),
                0 <= ly <= ih,
                self.state() == rc.pset_seq(st0, region_dabs(0, ly as int, 0, image.width as int, f)),
                rc.pset_seq_req(st0, region_dabs(0, ih as int, 0, image.width as int, f)),
            decreases ih - ly,
        {
            let iw: i64 = image.width as i64;
            let mut lx: i64 = 0;
            while lx < iw
                invariant
                    self.wf(),
                    self.same_setup(*old(self)),
                    rc == self.rcanvas(),
                    self.width <= i64::MAX,
                    self.height <= i64::MAX,
                    rimg_sized(*image),
                    x + image.width <= i64::MAX,
                    y + image.height <= i64::MAX,
                    ih as int == image.height,
                    iw as int == image.width,
                    f == rimg_fill(*image, x as int, y as int, rc.width as int, rc.height as int),
                    0 <= ly < ih,
                    0 <= lx <= iw,
                    self.state() == rc.pset_seq(st0, region_dabs(0, ly as int, 0, iw as int, f) + row_dabs(ly as int, 0, lx as int, f)),
                    rc.pset_seq_req(st0, region_dabs(0, ih as int, 0, iw as int, f)),
                decreases iw - lx,
            {
                proof {
                    lemma_rfill_step(rc, st0, 0, ly as int, ih as int, 0, lx as int, iw as int, f);
                    let cur = region_dabs(0, ly as int, 0, iw as int, f) + row_dabs(ly as int, 0, lx as int, f);
                    if f(lx as int, ly as int) is Some {
                        assert(cur.push(f(lx as int, ly as int).unwrap()).drop_last() =~= cur);
                    }
                    lemma_index_in_bounds(image.width as int, image.height as int, lx as int, ly as int);
                }
                let pc = image.pget(lx, ly);
                let px: i64 = x + lx;
                let py: i64 = y + ly;
                if !(pc.a == 0 || (px < 0 || px > self.width as i64) || (py < 0 || py > self.height as i64)) {
                    self.pset(x + lx, y + ly, pc);
                }
                lx = lx + 1;
            }
            ly = ly + 1;
        }
    }

    /// Draws a section of an image directly to the screen: the section with its corner at
    /// (rx, ry), `rw` by `rh` pixels and wrapped around the image, lands with its corner at
    /// (x, y); pixels landing off the buffer are not drawn.
    pub fn pimgrect(&mut self, image: &Rasterizer, x: i64, y: i64, rx: i64, ry: i64, rw: i64, rh: i64)
        requires
            old(self).wf(),
            old(self).width <= i64::MAX,
            old(self).height <= i64::MAX,
            rimg_sized(*image),
            fits_i64(rx + rw),
            fits_i64(ry + rh),
            rimg_rect_fits(old(self).rcanvas(), *image, x as int, y as int, rx as int, ry as int, rw as int, rh as int),
            old(self).rcanvas().pset_seq_req(old(self).state(), rimg_rect_dabs(old(self).rcanvas(), *image, x as int, y as int, rx as int, ry as int, rw as int, rh as int)),
        ensures
            final(self).wf(),
            final(self).same_setup(*old(self)),
            final(self).state() == old(self).rcanvas().pset_seq(old(self).state(), rimg_rect_dabs(old(self).rcanvas(), *image, x as int, y as int, rx as int, ry as int, rw as int, rh as int)),
    {
        let ghost rc: RCanvas = old(self).rcanvas();
        let ghost st0: (Seq<u8>, int) = old(self).state();
        let ghost f = rimg_rect_fill(*image, x as int, y as int, rx as int, ry as int);
        let range_x: i64 = rx + rw;
        let range_y: i64 = ry + rh;
        let mut ly: i64 = ry;
        while ly < range_y
            invariant
                self.wf(),
                self.same_setup(*old(self)),
                rc == self.rcanvas(),
                self.width <= i64::MAX,
                self.height <= i64::MAX,
                rimg_sized(*image),
                f == rimg_rect_fill(*image, x as int, y as int, rx as int, ry as int),
                (rx as int, range_x as int, ry as int, range_y as int) == rimg_rect_box(rc, rx as int, ry as int, rw as int, rh as int),
                rimg_rect_fits(rc, *image, x as int, y as int, rx as int, ry as int, rw as int, rh as int),
                ry <= ly,
                ry <= range_y ==> ly <= range_y,
                range_y < ry ==> ly == ry,
                self.state() == rc.pset_seq(st0, region_dabs(ry as int, ly as int, rx as int, range_x as int, f)),
                rc.pset_seq_req(st0, region_dabs(ry as int, range_y as int, rx as int, range_x as int, f)),
            decreases range_y - ly,
        {
            let mut lx: i64 = rx;
            while lx < range_x
                invariant
                    self.wf(),
                    self.same_setup(*old(self)),
                    rc == self.rcanvas(),
                    self.width <= i64::MAX,
                    self.height <= i64::MAX,
                    rimg_sized(*image),
                    f == rimg_rect_fill(*image, x as int, y as int, rx as int, ry as int),
                    (rx as int, range_x as int, ry as int, range_y as int) == rimg_rect_box(rc, rx as int, ry as int, rw as int, rh as int),
                    rimg_rect_fits(rc, *image, x as int, y as int, rx as int, ry as int, rw as int, rh as int),
                    ry <= ly < range_y,
                    rx <= lx,
                    rx <= range_x ==> lx <= range_x,
                    range_x < rx ==> lx == rx,
                    self.state() == rc.pset_seq(st0, region_dabs(ry as int, ly as int, rx as int, range_x as int, f) + row_dabs(ly as int, rx as int, lx as int, f)),
                    rc.pset_seq_req(st0, region_dabs(ry as int, range_y as int, rx as int, range_x as int, f)),
                decreases range_x - lx,
            {
                proof {
                    lemma_rfill_step(rc, st0, ry as int, ly as int, range_y as int, rx as int, lx as int, range_x as int, f);
                    let cur = region_dabs(ry as int, ly as int, rx as int, range_x as int, f) + row_dabs(ly as int, rx as int, lx as int, f);
                    assert(cur.push(f(lx as int, ly as int).unwrap()).drop_last() =~= cur);
                    let bx = rimg_rect_box(rc, rx as int, ry as int, rw as int, rh as int);
                    assert(bx.0 <= lx < bx.1 && bx.2 <= ly < bx.3);
                    assert(rimg_rect_cell(*image, x as int, y as int, rx as int, ry as int, lx as int, ly as int));
                }
                let mlx: i64 = rem_euclid_i64(lx, image.width as i64);
                let mly: i64 = rem_euclid_i64(ly, image.height as i64);
                let px: i64 = (x + mlx) - rx;
                let py: i64 = (y + mly) - ry;
                proof {
                    lemma_index_in_bounds(image.width as int, image.height as int, mlx as int, mly as int);
                }
                let pc = image.pget(mlx, mly);
                self.pset(px, py, pc);
                lx = lx + 1;
            }
            proof {
                if range_x < rx {
                    assert(row_dabs(ly as int, rx as int, lx as int, f) =~= row_dabs(ly as int, rx as int, range_x as int, f));
                }
            }
            ly = ly + 1;
        }
        proof {
            if range_y < ry {
                assert(region_dabs(ry as int, ly as int, rx as int, range_x as int, f) =~= region_dabs(ry as int, range_y as int, rx as int, range_x as int, f));
            }
        }
    }

}

} // verus!
