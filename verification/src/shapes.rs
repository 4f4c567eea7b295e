//! The pixels of the shapes that the buffers draw: Bresenham lines and midpoint circles.
use vstd::prelude::*;
use crate::color::Color;
use crate::math::fits_i32;
use crate::region::Dab;

verus! {

/// The absolute value of an integer.
pub open spec fn abs_int(v: int) -> int {
    if v < 0 {
        -v
    } else {
        v
    }
}

/// The rest of a Bresenham line from the point (x, y) with error term `err` toward
/// (x1, y1); `dx` is the horizontal distance, `dy` minus the vertical distance, `sx` and
/// `sy` the steps. Every point is drawn before the next step is taken; a step that would
/// move past the end on an axis ends the line.
pub open spec fn line_from(x: int, y: int, err: int, x1: int, y1: int, dx: int, dy: int, sx: int, sy: int, fuel: nat) -> Seq<(int, int)>
    decreases fuel,
{
    if (x == x1 && y == y1) || fuel == 0 {
        seq![(x, y)]
    } else {
        let e2 = 2 * err;
        if e2 >= dy && x == x1 {
            seq![(x, y)]
        } else {
            let nx = if e2 >= dy {
                x + sx
            } else {
                x
            };
            let nerr = if e2 >= dy {
                err + dy
            } else {
                err
            };
            if e2 <= dx {
                if y == y1 {
                    seq![(x, y)]
                } else {
                    seq![(x, y)] + line_from(nx, y + sy, nerr + dx, x1, y1, dx, dy, sx, sy, (fuel - 1) as nat)
                }
            } else {
                seq![(x, y)] + line_from(nx, y, nerr, x1, y1, dx, dy, sx, sy, (fuel - 1) as nat)
            }
        }
    }
}

/// The step toward `to` from `from`: 1 when `from < to`, -1 otherwise.
pub open spec fn step_toward(from: int, to: int) -> int {
    if from < to {
        1
    } else {
        -1
    }
}

/// The points of the Bresenham line from (x0, y0) to (x1, y1), in drawing order.
pub open spec fn line_points(x0: int, y0: int, x1: int, y1: int) -> Seq<(int, int)> {
    let dx = abs_int(x1 - x0);
    let dy = -abs_int(y1 - y0);
    line_from(x0, y0, dx + dy, x1, y1, dx, dy, step_toward(x0, x1), step_toward(y0, y1), (dx - dy) as nat)
}

/// Points as dabs of one color.
pub open spec fn to_dabs(ps: Seq<(int, int)>, c: Color) -> Seq<Dab> {
    ps.map_values(|p: (int, int)| (p.0 as i32, p.1 as i32, c))
}

/// The dabs that drawing the line from (x0, y0) to (x1, y1) in color `c` plots.
pub open spec fn line_dabs(x0: int, y0: int, x1: int, y1: int, c: Color) -> Seq<Dab> {
    to_dabs(line_points(x0, y0, x1, y1), c)
}

/// The line arithmetic stays within `i32`: the distances fit, and so does the doubled
/// error term, which stays between three times the two distances.
pub open spec fn line_fits(x0: int, y0: int, x1: int, y1: int) -> bool {
    &&& fits_i32(x1 - x0)
    &&& fits_i32(y1 - y0)
    &&& 3 * abs_int(x1 - x0) <= i32::MAX
    &&& 3 * abs_int(y1 - y0) <= i32::MAX
}

/// A line has at most `fuel + 1` points.
pub proof fn lemma_line_from_len(x: int, y: int, err: int, x1: int, y1: int, dx: int, dy: int, sx: int, sy: int, fuel: nat)
    ensures
        1 <= line_from(x, y, err, x1, y1, dx, dy, sx, sy, fuel).len() <= fuel + 1,
    decreases fuel,
{
    if (x == x1 && y == y1) || fuel == 0 {
    } else {
        let e2 = 2 * err;
        let nx = if e2 >= dy {
            x + sx
        } else {
            x
        };
        let nerr = if e2 >= dy {
            err + dy
        } else {
            err
        };
        lemma_line_from_len(nx, y + sy, nerr + dx, x1, y1, dx, dy, sx, sy, (fuel - 1) as nat);
        lemma_line_from_len(nx, y, nerr, x1, y1, dx, dy, sx, sy, (fuel - 1) as nat);
    }
}

/// The first point of a line is where it starts.
pub proof fn lemma_line_from_first(x: int, y: int, err: int, x1: int, y1: int, dx: int, dy: int, sx: int, sy: int, fuel: nat)
    ensures
        line_from(x, y, err, x1, y1, dx, dy, sx, sy, fuel)[0] == (x, y),
{
}

/// The dabs of a line with one more point in front.
pub proof fn lemma_to_dabs_cons(p: (int, int), t: Seq<(int, int)>, c: Color)
    ensures
        to_dabs(seq![p] + t, c) == seq![(p.0 as i32, p.1 as i32, c)] + to_dabs(t, c),
{
    assert(to_dabs(seq![p] + t, c) =~= seq![(p.0 as i32, p.1 as i32, c)] + to_dabs(t, c));
}

/// The eight points that a midpoint circle step sets: (x, y) mirrored into every octant
/// around the center (xc, yc).
pub open spec fn octants(xc: int, yc: int, x: int, y: int) -> Seq<(int, int)> {
    seq![
        (xc + x, yc + y),
        (xc - x, yc + y),
        (xc + x, yc - y),
        (xc - x, yc - y),
        (xc + y, yc + x),
        (xc - y, yc + x),
        (xc + y, yc - x),
        (xc - y, yc - x),
    ]
}

/// The rest of a midpoint circle outline from the step (x, y) with decision value `d`:
/// while y >= x, x advances, y steps inward when d > 0, and the new point is mirrored.
pub open spec fn circle_from(xc: int, yc: int, x: int, y: int, d: int, fuel: nat) -> Seq<(int, int)>
    decreases fuel,
{
    if y < x || fuel == 0 {
        Seq::empty()
    } else {
        let nx = x + 1;
        let ny = if d > 0 {
            y - 1
        } else {
            y
        };
        let nd = if d > 0 {
            d + 4 * (nx - ny) + 10
        } else {
            d + 4 * nx + 6
        };
        octants(xc, yc, nx, ny) + circle_from(xc, yc, nx, ny, nd, (fuel - 1) as nat)
    }
}

/// The points of the outline of the circle of radius `r` around (xc, yc), in drawing order.
pub open spec fn circle_points(xc: int, yc: int, r: int) -> Seq<(int, int)> {
    octants(xc, yc, 0, r) + circle_from(xc, yc, 0, r, 3 - 2 * r, if r >= 0 {
        (r + 1) as nat
    } else {
        0
    })
}

/// The smallest of three integers.
pub open spec fn min3(a: int, b: int, c: int) -> int {
    if a <= b && a <= c {
        a
    } else if b <= c {
        b
    } else {
        c
    }
}

/// The largest of three integers.
pub open spec fn max3(a: int, b: int, c: int) -> int {
    if a >= b && a >= c {
        a
    } else if b >= c {
        b
    } else {
        c
    }
}

} // verus!
