//! Lines, rectangles, triangles, circles and images drawn into a `Buffer`.
use vstd::prelude::*;
use crate::color::Color;
use crate::buffer::{Buffer, Canvas, lemma_plot_seq_req_prefix, lemma_plot_seq_concat};
use crate::region::{Dab, region_dabs, row_dabs, lemma_region_progress};
use crate::math::fits_i32;
use crate::shader::ShaderParams;
use crate::shapes::{abs_int, line_from, line_points, line_dabs, line_fits, to_dabs, step_toward, lemma_line_from_len, lemma_to_dabs_cons, octants, circle_from, circle_points, min3, max3};
use crate::math::{in_triangle_spec, in_triangle_fits, point_in_triangle};
use crate::buffer::{lemma_pset_seq_concat, read_pixel, rem_euclid_i32, pixel_at, channel, lemma_index_in_bounds};
use crate::laws::lemma_fill_rect_plain;

verus! {

/// `v` clamped to the range [lo, hi].
pub open spec fn clamp_spec(v: int, lo: int, hi: int) -> int {
    if v < lo {
        lo
    } else if v > hi {
        hi
    } else {
        v
    }
}

/// Clamps `v` to the range [lo, hi].
pub fn clamp_i32(v: i32, lo: i32, hi: i32) -> (r: i32)
    requires
        lo <= hi,
    ensures
        r == clamp_spec(v as int, lo as int, hi as int),
{
    if v < lo {
        lo
    } else if v > hi {
        hi
    } else {
        v
    }
}

/// Every position gets a dab of the color `c`.
pub open spec fn solid(c: Color) -> spec_fn(int, int) -> Option<Dab> {
    |x: int, y: int| Some((x as i32, y as i32, c))
}

/// One step of drawing a region: the dab that `f` chooses at (x, y), if any, is the next
/// one to plot, and it can be plotted.
pub proof fn lemma_fill_step(
    cv: Canvas,
    pix0: Seq<u8>,
    ys: int,
    y: int,
    ye: int,
    xs: int,
    x: int,
    xe: int,
    f: spec_fn(int, int) -> Option<Dab>,
    clipped: bool,
)
    requires
        ys <= y < ye,
        xs <= x < xe,
        cv.plot_seq_req(pix0, region_dabs(ys, ye, xs, xe, f), clipped),
    ensures
        f(x, y) is Some ==> region_dabs(ys, y, xs, xe, f) + row_dabs(y, xs, x + 1, f) == (region_dabs(ys, y, xs, xe, f)
            + row_dabs(y, xs, x, f)).push(f(x, y).unwrap()),
        f(x, y) is Some ==> cv.plot_req(
            cv.plot_seq(pix0, region_dabs(ys, y, xs, xe, f) + row_dabs(y, xs, x, f), clipped),
            f(x, y).unwrap(),
            clipped,
        ),
        f(x, y) is None ==> region_dabs(ys, y, xs, xe, f) + row_dabs(y, xs, x + 1, f) == region_dabs(ys, y, xs, xe, f)
            + row_dabs(y, xs, x, f),
{
    let a = region_dabs(ys, y, xs, xe, f);
    let cur = a + row_dabs(y, xs, x, f);
    let next = a + row_dabs(y, xs, x + 1, f);
    lemma_region_progress(ys, y, ye, xs, x + 1, xe, f);
    lemma_plot_seq_req_prefix(cv, pix0, next, row_dabs(y, x + 1, xe, f) + region_dabs(y + 1, ye, xs, xe, f), clipped);
    if f(x, y) is Some {
        assert(next =~= cur.push(f(x, y).unwrap()));
        assert(next.drop_last() =~= cur);
    } else {
        assert(next =~= cur);
    }
}

/// After the last column of a row the next row starts.
pub proof fn lemma_fill_row_done(ys: int, y: int, xs: int, xe: int, f: spec_fn(int, int) -> Option<Dab>)
    requires
        ys <= y,
    ensures
        region_dabs(ys, y + 1, xs, xe, f) == region_dabs(ys, y, xs, xe, f) + row_dabs(y, xs, xe, f),
{
}

/// The smallest of three `i32`s.
fn min3_i32(a: i32, b: i32, c: i32) -> (m: i32)
    ensures
        m == min3(a as int, b as int, c as int),
{
    if a <= b && a <= c {
        a
    } else if b <= c {
        b
    } else {
        c
    }
}

/// The largest of three `i32`s.
fn max3_i32(a: i32, b: i32, c: i32) -> (m: i32)
    ensures
        m == max3(a as int, b as int, c as int),
{
    if a >= b && a >= c {
        a
    } else if b >= c {
        b
    } else {
        c
    }
}

/// The positions inside the triangle get a dab of the color `c`.
pub open spec fn triangle_fill(x0: int, y0: int, x1: int, y1: int, x2: int, y2: int, c: Color) -> spec_fn(int, int) -> Option<Dab> {
    |x: int, y: int|
        if in_triangle_spec(x, y, x0, y0, x1, y1, x2, y2) {
            Some((x as i32, y as i32, c))
        } else {
            None
        }
}

/// The bounding box that `ptriangle` scans: the columns clamped to the width and the rows
/// clamped to the height.
pub open spec fn triangle_box(cv: Canvas, x0: int, y0: int, x1: int, y1: int, x2: int, y2: int) -> (int, int, int, int) {
    (
        clamp_spec(min3(x0, x1, x2), 0, cv.width as int),
        clamp_spec(max3(x0, x1, x2), 0, cv.width as int),
        clamp_spec(min3(y0, y1, y2), 0, cv.height as int),
        clamp_spec(max3(y0, y1, y2), 0, cv.height as int),
    )
}

/// The dabs of a filled triangle.
pub open spec fn triangle_fill_dabs(cv: Canvas, x0: int, y0: int, x1: int, y1: int, x2: int, y2: int, c: Color) -> Seq<Dab> {
    let b = triangle_box(cv, x0, y0, x1, y1, x2, y2);
    region_dabs(b.2, b.3, b.0, b.1, triangle_fill(x0, y0, x1, y1, x2, y2, c))
}

/// The dabs of an outlined triangle: three lines.
pub open spec fn triangle_outline_dabs(x0: int, y0: int, x1: int, y1: int, x2: int, y2: int, c: Color) -> Seq<Dab> {
    line_dabs(x0, y0, x1, y1, c) + line_dabs(x0, y0, x2, y2, c) + line_dabs(x1, y1, x2, y2, c)
}

/// The positions within distance `r` of (xc, yc) get a dab of the color `c`.
pub open spec fn disc_fill(xc: int, yc: int, r: int, c: Color) -> spec_fn(int, int) -> Option<Dab> {
    |x: int, y: int|
        if (x - xc) * (x - xc) + (y - yc) * (y - yc) <= r * r {
            Some((x as i32, y as i32, c))
        } else {
            None
        }
}

/// The bounding box that `pcircle` scans, clamped to the canvas.
pub open spec fn circle_box(cv: Canvas, xc: int, yc: int, r: int) -> (int, int, int, int) {
    (
        clamp_spec(xc - r, 0, cv.width as int),
        clamp_spec(xc + r + 1, 0, cv.width as int),
        clamp_spec(yc - r, 0, cv.height as int),
        clamp_spec(yc + r + 1, 0, cv.height as int),
    )
}

/// The dabs of a filled circle.
pub open spec fn disc_dabs(cv: Canvas, xc: int, yc: int, r: int, c: Color) -> Seq<Dab> {
    let b = circle_box(cv, xc, yc, r);
    region_dabs(b.2, b.3, b.0, b.1, disc_fill(xc, yc, r, c))
}

/// The distance test of a filled circle stays within `i32` on every scanned position.
pub open spec fn disc_fits(cv: Canvas, xc: int, yc: int, r: int) -> bool {
    let b = circle_box(cv, xc, yc, r);
    &&& fits_i32(r * r)
    &&& forall|x: int, y: int|
        b.0 <= x < b.1 && b.2 <= y < b.3 ==> {
            &&& fits_i32(x - xc)
            &&& fits_i32(y - yc)
            &&& fits_i32((x - xc) * (x - xc))
            &&& fits_i32((y - yc) * (y - yc))
            &&& fits_i32(#[trigger] ((x - xc) * (x - xc) + (y - yc) * (y - yc)))
        }
}

/// Every point of the outline fits `i32` and can be set.
pub open spec fn outline_ok(cv: Canvas, pts: Seq<(int, int)>) -> bool {
    forall|k: int| 0 <= k < pts.len() ==> fits_i32(#[trigger] pts[k].0) && fits_i32(pts[k].1) && cv.pset_req(pts[k].0, pts[k].1)
}

/// The dabs of an image drawn at (x, y): every pixel of the image that is not fully
/// transparent and lands within the columns 0..=width and rows 0..=height of the canvas.
pub open spec fn image_fill(cv: Canvas, image: Buffer, x: int, y: int) -> spec_fn(int, int) -> Option<Dab> {
    |lx: int, ly: int|
        {
            let pc = image.canvas().pget_spec(image.color@, lx, ly);
            let px = x + lx;
            let py = y + ly;
            if pc.a <= 0 || px < 0 || px > cv.width || py < 0 || py > cv.height {
                None
            } else {
                Some((px as i32, py as i32, pc))
            }
        }
}

/// The dabs of `pimg`.
pub open spec fn image_dabs(cv: Canvas, image: Buffer, x: int, y: int) -> Seq<Dab> {
    region_dabs(0, image.height as int, 0, image.width as int, image_fill(cv, image, x, y))
}

/// The scan of `pimg` stays within `i32` and can read every image pixel.
pub open spec fn image_fits(image: Buffer, x: int, y: int) -> bool {
    forall|lx: int, ly: int|
        0 <= lx < image.width && 0 <= ly < image.height ==> fits_i32(x + lx) && fits_i32(y + ly) && #[trigger] image.canvas().pget_req(lx, ly)
}

/// The dabs of a section of an image: the position (lx, ly) of the section reads the image
/// pixel at (lx, ly) wrapped around the image and draws it at (x, y) plus its offset from
/// the section's corner (rx, ry).
pub open spec fn image_rect_fill(image: Buffer, x: int, y: int, rx: int, ry: int) -> spec_fn(int, int) -> Option<Dab> {
    |lx: int, ly: int|
        {
            let mlx = lx % (image.width as int);
            let mly = ly % (image.height as int);
            Some((((x + mlx) - rx) as i32, ((y + mly) - ry) as i32, image.canvas().pget_spec(image.color@, mlx, mly)))
        }
}

/// The section that `pimgrect` scans: `rw` by `rh` positions from (rx, ry). The section is
/// taken from the image whatever the canvas size; only the pixels it draws are clipped to
/// the canvas.
pub open spec fn image_rect_box(cv: Canvas, rx: int, ry: int, rw: int, rh: int) -> (int, int, int, int) {
    (rx, rx + rw, ry, ry + rh)
}

/// The dabs of `pimgrect`.
pub open spec fn image_rect_dabs(cv: Canvas, image: Buffer, x: int, y: int, rx: int, ry: int, rw: int, rh: int) -> Seq<Dab> {
    let b = image_rect_box(cv, rx, ry, rw, rh);
    region_dabs(b.2, b.3, b.0, b.1, image_rect_fill(image, x, y, rx, ry))
}

/// The scan of `pimgrect` stays within `i32` and can read every image pixel it wraps to.
pub open spec fn image_rect_fits(cv: Canvas, image: Buffer, x: int, y: int, rx: int, ry: int, rw: int, rh: int) -> bool {
    let b = image_rect_box(cv, rx, ry, rw, rh);
    forall|lx: int, ly: int|
        b.0 <= lx < b.1 && b.2 <= ly < b.3 ==> {
            &&& image.width > 0
            &&& image.height > 0
            &&& fits_i32(x + lx % (image.width as int))
            &&& fits_i32(y + ly % (image.height as int))
            &&& fits_i32((x + lx % (image.width as int)) - rx)
            &&& fits_i32((y + ly % (image.height as int)) - ry)
            &&& #[trigger] image.canvas().pget_req(lx % (image.width as int), ly % (image.height as int))
        }
}

/// The dabs of a textured triangle: every position inside it reads the texture at the same
/// position, wrapped around the texture.
pub open spec fn texture_fill(image: Buffer, x0: int, y0: int, x1: int, y1: int, x2: int, y2: int) -> spec_fn(int, int) -> Option<Dab> {
    |x: int, y: int|
        if in_triangle_spec(x, y, x0, y0, x1, y1, x2, y2) {
            Some((x as i32, y as i32, read_pixel(image.color@, image.canvas().index_of(x % (image.width as int), y % (image.height as int)))))
        } else {
            None
        }
}

/// The bounding box that `ptritex` scans, clamped to the canvas.
pub open spec fn texture_box(cv: Canvas, x0: int, y0: int, x1: int, y1: int, x2: int, y2: int) -> (int, int, int, int) {
    (
        clamp_spec(min3(x0, x1, x2), 0, cv.width as int),
        clamp_spec(max3(x0, x1, x2), 0, cv.width as int),
        clamp_spec(min3(y0, y1, y2), 0, cv.height as int),
        clamp_spec(max3(y0, y1, y2), 0, cv.height as int),
    )
}

/// The dabs of `ptritex`.
pub open spec fn texture_dabs(cv: Canvas, image: Buffer, x0: int, y0: int, x1: int, y1: int, x2: int, y2: int) -> Seq<Dab> {
    let b = texture_box(cv, x0, y0, x1, y1, x2, y2);
    region_dabs(b.2, b.3, b.0, b.1, texture_fill(image, x0, y0, x1, y1, x2, y2))
}

/// The scan of `ptritex` stays within `i32` and can read the texture where needed.
pub open spec fn texture_fits(cv: Canvas, image: Buffer, x0: int, y0: int, x1: int, y1: int, x2: int, y2: int) -> bool {
    let b = texture_box(cv, x0, y0, x1, y1, x2, y2);
    forall|ix: int, iy: int|
        b.0 <= ix < b.1 && b.2 <= iy < b.3 ==> {
            &&& #[trigger] in_triangle_fits(ix, iy, x0, y0, x1, y1, x2, y2)
            &&& in_triangle_spec(ix, iy, x0, y0, x1, y1, x2, y2) ==> {
                &&& image.width > 0
                &&& image.height > 0
                &&& image.canvas().index_fits(ix % (image.width as int), iy % (image.height as int))
            }
        }
}

/// A part of an outline whose points can all be set can be set.
pub proof fn lemma_outline_part(cv: Canvas, all: Seq<(int, int)>, a: Seq<(int, int)>, b: Seq<(int, int)>, c: Seq<(int, int)>)
    requires
        outline_ok(cv, all),
        all == a + (b + c),
    ensures
        outline_ok(cv, b),
{
    assert forall|k: int| 0 <= k < b.len() implies fits_i32(#[trigger] b[k].0) && fits_i32(b[k].1) && cv.pset_req(b[k].0, b[k].1) by {
        let j = a.len() + k;
        assert(all[j] == b[k]);
        assert(fits_i32(all[j].0));
    }
}

/// The dabs of a filled rectangle, clipped to the canvas.
pub open spec fn rect_fill_dabs(cv: Canvas, x: int, y: int, w: int, h: int, c: Color) -> Seq<Dab> {
    region_dabs(
        clamp_spec(y, 0, cv.height as int),
        clamp_spec(y + h, 0, cv.height as int),
        clamp_spec(x, 0, cv.width as int),
        clamp_spec(x + w, 0, cv.width as int),
        solid(c),
    )
}

/// The dabs of an outlined rectangle: its top, bottom, right and left edges.
pub open spec fn rect_outline_dabs(x: int, y: int, w: int, h: int, c: Color) -> Seq<Dab> {
    line_dabs(x, y, x + w, y, c) + line_dabs(x, y + h, x + w, y + h, c) + line_dabs(x + w, y, x + w, y + h, c)
        + line_dabs(x, y, x, y + h, c)
}


impl Buffer {
    /// Draws a line across two points using the Bresenham line algorithm. Every point of
    /// the line is passed through the shaders and then set with `pset`.
    pub fn pline(&mut self, x0: i32, y0: i32, x1: i32, y1: i32, color: Color)
        requires
            old(self).wf(),
            line_fits(x0 as int, y0 as int, x1 as int, y1 as int),
            old(self).canvas().plot_seq_req(old(self).color@, line_dabs(x0 as int, y0 as int, x1 as int, y1 as int, color), true),
        ensures
            final(self).wf(),
            final(self).same_setup(*old(self)),
            final(self).color@ == old(self).canvas().plot_seq(old(self).color@, line_dabs(x0 as int, y0 as int, x1 as int, y1 as int, color), true),
    {
        let ghost cv: Canvas = old(self).canvas();
        let ghost pix0: Seq<u8> = old(self).color@;
        let ghost full: Seq<Dab> = line_dabs(x0 as int, y0 as int, x1 as int, y1 as int, color);
        let (mut cx, mut cy) = (x0, y0);

        let dx: i32 = if x1 - x0 < 0 { -(x1 - x0) } else { x1 - x0 };
        let sx: i32 = if x0 < x1 { 1 } else { -1 };
        let dy: i32 = if y1 - y0 < 0 { y1 - y0 } else { -(y1 - y0) };
        let sy: i32 = if y0 < y1 { 1 } else { -1 };
        let mut error: i32 = dx + dy;
        let ghost mut fuel: nat = (dx - dy) as nat;
        let ghost mut done: Seq<Dab> = Seq::empty();
        assert(done + to_dabs(line_from(cx as int, cy as int, error as int, x1 as int, y1 as int, dx as int, dy as int, sx as int, sy as int, fuel), color) =~= full);

        loop
            invariant_except_break
                self.wf(),
                self.same_setup(*old(self)),
                cv == self.canvas(),
                dx == abs_int(x1 - x0),
                dy == -abs_int(y1 - y0),
                sx == step_toward(x0 as int, x1 as int),
                sy == step_toward(y0 as int, y1 as int),
                3 * dx <= i32::MAX,
                3 * (-dy) <= i32::MAX,
                sx == 1 ==> x0 <= cx <= x1,
                sx == -1 ==> x1 <= cx <= x0,
                sy == 1 ==> y0 <= cy <= y1,
                sy == -1 ==> y1 <= cy <= y0,
                3 * dy <= 2 * error <= 3 * dx,
                fuel >= abs_int(x1 - cx) + abs_int(y1 - cy),
                done + to_dabs(line_from(cx as int, cy as int, error as int, x1 as int, y1 as int, dx as int, dy as int, sx as int, sy as int, fuel), color) == full,
                self.color@ == cv.plot_seq(pix0, done, true),
                cv.plot_seq_req(pix0, full, true),
            ensures
                self.wf(),
                self.same_setup(*old(self)),
                self.color@ == cv.plot_seq(pix0, full, true),
            decreases abs_int(x1 - cx) + abs_int(y1 - cy),
        {
            let ghost rest: Seq<(int, int)> = line_from(cx as int, cy as int, error as int, x1 as int, y1 as int, dx as int, dy as int, sx as int, sy as int, fuel);
            let ghost d: Dab = (cx, cy, color);
            proof {
                lemma_line_from_len(cx as int, cy as int, error as int, x1 as int, y1 as int, dx as int, dy as int, sx as int, sy as int, fuel);
                assert(rest =~= seq![rest[0]] + rest.subrange(1, rest.len() as int));
                lemma_to_dabs_cons(rest[0], rest.subrange(1, rest.len() as int), color);
                assert(full =~= done.push(d) + to_dabs(rest.subrange(1, rest.len() as int), color));
                lemma_plot_seq_req_prefix(cv, pix0, done.push(d), to_dabs(rest.subrange(1, rest.len() as int), color), true);
                assert(done.push(d).drop_last() =~= done);
            }
            let (x_shade, y_shade, color_shade) = self.run_pixel_in_shaders(cx, cy, color, ShaderParams::new(cx, cy, color));
            self.pset(x_shade, y_shade, color_shade);
            proof {
                done = done.push(d);
            }
            if cx == x1 && cy == y1 {
                assert(done =~= full);
                break;
            }
            let e2: i32 = 2 * error;
            if e2 >= dy {
                if cx == x1 {
                    assert(done =~= full);
                    break;
                }
                error = error + dy;
                cx = cx + sx;
            }
            if e2 <= dx {
                if cy == y1 {
                    assert(done =~= full);
                    break;
                }
                error = error + dx;
                cy = cy + sy;
            }
            proof {
                fuel = (fuel - 1) as nat;
            }
        }
    }

    /// Draws a rectangle onto the screen. Can either be filled or outlined. A filled
    /// rectangle is clipped to the buffer and its pixels are set with `pset_panic_oob`; an
    /// outline is four lines.
    pub fn prectangle(&mut self, filled: bool, x: i32, y: i32, w: i32, h: i32, color: Color)
        requires
            old(self).wf(),
            fits_i32(x + w),
            fits_i32(y + h),
            filled ==> old(self).canvas().plot_seq_req(old(self).color@, rect_fill_dabs(old(self).canvas(), x as int, y as int, w as int, h as int, color), false),
            !filled ==> line_fits(x as int, y as int, x + w, y as int),
            !filled ==> line_fits(x as int, y + h, x + w, y + h),
            !filled ==> line_fits(x + w, y as int, x + w, y + h),
            !filled ==> line_fits(x as int, y as int, x as int, y + h),
            !filled ==> old(self).canvas().plot_seq_req(old(self).color@, rect_outline_dabs(x as int, y as int, w as int, h as int, color), true),
        ensures
            final(self).wf(),
            final(self).same_setup(*old(self)),
            filled ==> final(self).color@ == old(self).canvas().plot_seq(old(self).color@, rect_fill_dabs(old(self).canvas(), x as int, y as int, w as int, h as int, color), false),
            !filled ==> final(self).color@ == old(self).canvas().plot_seq(old(self).color@, rect_outline_dabs(x as int, y as int, w as int, h as int, color), true),
    {
        let ghost cv: Canvas = old(self).canvas();
        let ghost pix0: Seq<u8> = old(self).color@;
        if filled {
            let x0 = clamp_i32(x, 0, self.width as i32);
            let x1 = clamp_i32(x + w, 0, self.width as i32);
            let y0 = clamp_i32(y, 0, self.height as i32);
            let y1 = clamp_i32(y + h, 0, self.height as i32);
            let ghost f = solid(color);
            assert(region_dabs(y0 as int, y1 as int, x0 as int, x1 as int, f) == rect_fill_dabs(cv, x as int, y as int, w as int, h as int, color));

            let mut py: i32 = y0;
            while py < y1
                invariant
                    self.wf(),
                    self.same_setup(*old(self)),
                    cv == self.canvas(),
                    f == solid(color),
                    y0 <= py,
                    y0 <= y1 ==> py <= y1,
                    y1 < y0 ==> py == y0,
                    self.color@ == cv.plot_seq(pix0, region_dabs(y0 as int, py as int, x0 as int, x1 as int, f), false),
                    cv.plot_seq_req(pix0, region_dabs(y0 as int, y1 as int, x0 as int, x1 as int, f), false),
                decreases y1 - py,
            {
                let mut px: i32 = x0;
                while px < x1
                    invariant
                        self.wf(),
                        self.same_setup(*old(self)),
                        cv == self.canvas(),
                        f == solid(color),
                        y0 <= py < y1,
                        x0 <= px,
                        x0 <= x1 ==> px <= x1,
                        x1 < x0 ==> px == x0,
                        self.color@ == cv.plot_seq(pix0, region_dabs(y0 as int, py as int, x0 as int, x1 as int, f) + row_dabs(py as int, x0 as int, px as int, f), false),
                        cv.plot_seq_req(pix0, region_dabs(y0 as int, y1 as int, x0 as int, x1 as int, f), false),
                    decreases x1 - px,
                {
                    proof {
                        lemma_fill_step(cv, pix0, y0 as int, py as int, y1 as int, x0 as int, px as int, x1 as int, f, false);
                        assert(f(px as int, py as int) == Some((px, py, color)));
                        let cur = region_dabs(y0 as int, py as int, x0 as int, x1 as int, f) + row_dabs(py as int, x0 as int, px as int, f);
                        assert(cur.push((px, py, color)).drop_last() =~= cur);
                    }
                    let (x_shade, y_shade, color_shade) = self.run_pixel_in_shaders(px, py, color, ShaderParams::new(px, py, color));
                    self.pset_panic_oob(x_shade, y_shade, color_shade);
                    px = px + 1;
                }
                proof {
                    lemma_fill_row_done(y0 as int, py as int, x0 as int, x1 as int, f);
                    if x1 < x0 {
                        assert(row_dabs(py as int, x0 as int, px as int, f) =~= row_dabs(py as int, x0 as int, x1 as int, f));
                    }
                }
                py = py + 1;
            }
            proof {
                if y1 < y0 {
                    assert(region_dabs(y0 as int, py as int, x0 as int, x1 as int, f) =~= region_dabs(y0 as int, y1 as int, x0 as int, x1 as int, f));
                }
            }
        } else {
            let ghost a = line_dabs(x as int, y as int, x + w, y as int, color);
            let ghost b = line_dabs(x as int, y + h, x + w, y + h, color);
            let ghost c = line_dabs(x + w, y as int, x + w, y + h, color);
            let ghost d = line_dabs(x as int, y as int, x as int, y + h, color);
            proof {
                lemma_plot_seq_concat(cv, pix0, a + b + c, d, true);
                lemma_plot_seq_concat(cv, pix0, a + b, c, true);
                lemma_plot_seq_concat(cv, pix0, a, b, true);
            }
            self.pline(x, y, x + w, y, color);
            self.pline(x, y + h, x + w, y + h, color);
            self.pline(x + w, y, x + w, y + h, color);
            self.pline(x, y, x, y + h, color);
        }
    }

    /// Draws a triangle directly to the screen. A filled triangle sets, with
    /// `pset_panic_oob`, every pixel of its clipped bounding box that passes the edge tests
    /// of `point_in_triangle`; an outline is three lines.
    pub fn ptriangle(&mut self, filled: bool, x0: i32, y0: i32, x1: i32, y1: i32, x2: i32, y2: i32, color: Color)
        requires
            old(self).wf(),
            filled ==> {
                let b = triangle_box(old(self).canvas(), x0 as int, y0 as int, x1 as int, y1 as int, x2 as int, y2 as int);
                forall|ix: int, iy: int|
                    b.0 <= ix < b.1 && b.2 <= iy < b.3 ==> #[trigger] in_triangle_fits(ix, iy, x0 as int, y0 as int, x1 as int, y1 as int, x2 as int, y2 as int)
            },
            filled ==> old(self).canvas().plot_seq_req(old(self).color@, triangle_fill_dabs(old(self).canvas(), x0 as int, y0 as int, x1 as int, y1 as int, x2 as int, y2 as int, color), false),
            !filled ==> line_fits(x0 as int, y0 as int, x1 as int, y1 as int),
            !filled ==> line_fits(x0 as int, y0 as int, x2 as int, y2 as int),
            !filled ==> line_fits(x1 as int, y1 as int, x2 as int, y2 as int),
            !filled ==> old(self).canvas().plot_seq_req(old(self).color@, triangle_outline_dabs(x0 as int, y0 as int, x1 as int, y1 as int, x2 as int, y2 as int, color), true),
        ensures
            final(self).wf(),
            final(self).same_setup(*old(self)),
            filled ==> final(self).color@ == old(self).canvas().plot_seq(old(self).color@, triangle_fill_dabs(old(self).canvas(), x0 as int, y0 as int, x1 as int, y1 as int, x2 as int, y2 as int, color), false),
            !filled ==> final(self).color@ == old(self).canvas().plot_seq(old(self).color@, triangle_outline_dabs(x0 as int, y0 as int, x1 as int, y1 as int, x2 as int, y2 as int, color), true),
    {
        let ghost cv: Canvas = old(self).canvas();
        let ghost pix0: Seq<u8> = old(self).color@;
        if filled {
            let xmin = clamp_i32(min3_i32(x0, x1, x2), 0, self.width as i32);
            let xmax = clamp_i32(max3_i32(x0, x1, x2), 0, self.width as i32);
            let ymin = clamp_i32(min3_i32(y0, y1, y2), 0, self.height as i32);
            let ymax = clamp_i32(max3_i32(y0, y1, y2), 0, self.height as i32);
            let ghost f = triangle_fill(x0 as int, y0 as int, x1 as int, y1 as int, x2 as int, y2 as int, color);
            assert(region_dabs(ymin as int, ymax as int, xmin as int, xmax as int, f) == triangle_fill_dabs(cv, x0 as int, y0 as int, x1 as int, y1 as int, x2 as int, y2 as int, color));

            let mut iy: i32 = ymin;
            while iy < ymax
                invariant
                    self.wf(),
                    self.same_setup(*old(self)),
                    cv == self.canvas(),
                    f == triangle_fill(x0 as int, y0 as int, x1 as int, y1 as int, x2 as int, y2 as int, color),
                    forall|ix: int, iy: int|
                        xmin <= ix < xmax && ymin <= iy < ymax ==> #[trigger] in_triangle_fits(ix, iy, x0 as int, y0 as int, x1 as int, y1 as int, x2 as int, y2 as int),
                    ymin <= iy,
                    ymin <= ymax ==> iy <= ymax,
                    ymax < ymin ==> iy == ymin,
                    self.color@ == cv.plot_seq(pix0, region_dabs(ymin as int, iy as int, xmin as int, xmax as int, f), false),
                    cv.plot_seq_req(pix0, region_dabs(ymin as int, ymax as int, xmin as int, xmax as int, f), false),
                decreases ymax - iy,
            {
                let mut ix: i32 = xmin;
                while ix < xmax
                    invariant
                        self.wf(),
                        self.same_setup(*old(self)),
                        cv == self.canvas(),
                        f == triangle_fill(x0 as int, y0 as int, x1 as int, y1 as int, x2 as int, y2 as int, color),
                        forall|ix: int, iy: int|
                            xmin <= ix < xmax && ymin <= iy < ymax ==> #[trigger] in_triangle_fits(ix, iy, x0 as int, y0 as int, x1 as int, y1 as int, x2 as int, y2 as int),
                        ymin <= iy < ymax,
                        xmin <= ix,
                        xmin <= xmax ==> ix <= xmax,
                        xmax < xmin ==> ix == xmin,
                        self.color@ == cv.plot_seq(pix0, region_dabs(ymin as int, iy as int, xmin as int, xmax as int, f) + row_dabs(iy as int, xmin as int, ix as int, f), false),
                        cv.plot_seq_req(pix0, region_dabs(ymin as int, ymax as int, xmin as int, xmax as int, f), false),
                    decreases xmax - ix,
                {
                    proof {
                        lemma_fill_step(cv, pix0, ymin as int, iy as int, ymax as int, xmin as int, ix as int, xmax as int, f, false);
                        let cur = region_dabs(ymin as int, iy as int, xmin as int, xmax as int, f) + row_dabs(iy as int, xmin as int, ix as int, f);
                        assert(cur.push((ix, iy, color)).drop_last() =~= cur);
                        assert(in_triangle_fits(ix as int, iy as int, x0 as int, y0 as int, x1 as int, y1 as int, x2 as int, y2 as int));
                    }
                    let is_inside = point_in_triangle(ix, iy, x0, y0, x1, y1, x2, y2);
                    if is_inside {
                        assert(f(ix as int, iy as int) == Some((ix, iy, color)));
                        let (x_shade, y_shade, color_shade) = self.run_pixel_in_shaders(ix, iy, color, ShaderParams::new(ix, iy, color));
                        self.pset_panic_oob(x_shade, y_shade, color_shade);
                    }
                    ix = ix + 1;
                }
                proof {
                    lemma_fill_row_done(ymin as int, iy as int, xmin as int, xmax as int, f);
                    if xmax < xmin {
                        assert(row_dabs(iy as int, xmin as int, ix as int, f) =~= row_dabs(iy as int, xmin as int, xmax as int, f));
                    }
                }
                iy = iy + 1;
            }
            proof {
                if ymax < ymin {
                    assert(region_dabs(ymin as int, iy as int, xmin as int, xmax as int, f) =~= region_dabs(ymin as int, ymax as int, xmin as int, xmax as int, f));
                }
            }
        } else {
            let ghost a = line_dabs(x0 as int, y0 as int, x1 as int, y1 as int, color);
            let ghost b = line_dabs(x0 as int, y0 as int, x2 as int, y2 as int, color);
            let ghost c = line_dabs(x1 as int, y1 as int, x2 as int, y2 as int, color);
            proof {
                lemma_plot_seq_concat(cv, pix0, a + b, c, true);
                lemma_plot_seq_concat(cv, pix0, a, b, true);
            }
            self.pline(x0, y0, x1, y1, color);
            self.pline(x0, y0, x2, y2, color);
            self.pline(x1, y1, x2, y2, color);
        }
    }

    /// Sets the eight mirrored points of one midpoint circle step, without shaders.
    fn pset_octants(&mut self, xc: i32, yc: i32, x: i32, y: i32, color: Color)
        requires
            old(self).wf(),
            outline_ok(old(self).canvas(), octants(xc as int, yc as int, x as int, y as int)),
        ensures
            final(self).wf(),
            final(self).same_setup(*old(self)),
            final(self).color@ == old(self).canvas().pset_seq(old(self).color@, octants(xc as int, yc as int, x as int, y as int), color),
    {
        let ghost cv: Canvas = old(self).canvas();
        let ghost pix0: Seq<u8> = old(self).color@;
        let ghost pts: Seq<(int, int)> = octants(xc as int, yc as int, x as int, y as int);
        proof {
            assert forall|k: int| 0 <= k < 8 implies fits_i32(#[trigger] pts[k].0) && fits_i32(pts[k].1) by {
                assert(fits_i32(pts[k].0) && fits_i32(pts[k].1) && cv.pset_req(pts[k].0, pts[k].1));
            }
            assert(fits_i32(pts[0].0) && fits_i32(pts[0].1));
            assert(fits_i32(pts[1].0) && fits_i32(pts[1].1));
            assert(fits_i32(pts[2].0) && fits_i32(pts[2].1));
            assert(fits_i32(pts[3].0) && fits_i32(pts[3].1));
            assert(fits_i32(pts[4].0) && fits_i32(pts[4].1));
            assert(fits_i32(pts[5].0) && fits_i32(pts[5].1));
            assert(fits_i32(pts[6].0) && fits_i32(pts[6].1));
            assert(fits_i32(pts[7].0) && fits_i32(pts[7].1));
        }
        let ps: [(i32, i32); 8] = [
            (xc + x, yc + y),
            (xc - x, yc + y),
            (xc + x, yc - y),
            (xc - x, yc - y),
            (xc + y, yc + x),
            (xc - y, yc + x),
            (xc + y, yc - x),
            (xc - y, yc - x),
        ];
        assert forall|k: int| 0 <= k < 8 implies (#[trigger] ps@[k]).0 as int == pts[k].0 && ps@[k].1 as int == pts[k].1 by {}
        let mut k: usize = 0;
        while k < 8
            invariant
                self.wf(),
                self.same_setup(*old(self)),
                cv == self.canvas(),
                k <= 8,
                pts == octants(xc as int, yc as int, x as int, y as int),
                outline_ok(cv, pts),
                forall|j: int| 0 <= j < 8 ==> (#[trigger] ps@[j]).0 as int == pts[j].0 && ps@[j].1 as int == pts[j].1,
                self.color@ == cv.pset_seq(pix0, pts.take(k as int), color),
            decreases 8 - k,
        {
            let (px, py) = ps[k];
            proof {
                assert(pts.take(k + 1).drop_last() =~= pts.take(k as int));
                assert(fits_i32(pts[k as int].0) && fits_i32(pts[k as int].1) && cv.pset_req(pts[k as int].0, pts[k as int].1));
            }
            self.pset(px, py, color);
            k = k + 1;
        }
        assert(pts.take(8) =~= pts);
    }

    /// Draws a circle onto the screen. Can either be filled or outlined. A filled circle
    /// shades and sets, with `pset`, every pixel of its clipped bounding box within the
    /// radius; an outline sets the points of the midpoint circle with `pset`, without shaders.
    pub fn pcircle(&mut self, filled: bool, xc: i32, yc: i32, r: i32, color: Color)
        requires
            old(self).wf(),
            fits_i32(xc - r),
            fits_i32(xc + r),
            fits_i32(xc + r + 1),
            fits_i32(yc - r),
            fits_i32(yc + r),
            fits_i32(yc + r + 1),
            filled ==> disc_fits(old(self).canvas(), xc as int, yc as int, r as int),
            filled ==> old(self).canvas().plot_seq_req(old(self).color@, disc_dabs(old(self).canvas(), xc as int, yc as int, r as int, color), true),
            !filled ==> fits_i32(3 - 2 * r),
            !filled ==> outline_ok(old(self).canvas(), circle_points(xc as int, yc as int, r as int)),
        ensures
            final(self).wf(),
            final(self).same_setup(*old(self)),
            filled ==> final(self).color@ == old(self).canvas().plot_seq(old(self).color@, disc_dabs(old(self).canvas(), xc as int, yc as int, r as int, color), true),
            !filled ==> final(self).color@ == old(self).canvas().pset_seq(old(self).color@, circle_points(xc as int, yc as int, r as int), color),
    {
        let ghost cv: Canvas = old(self).canvas();
        let ghost pix0: Seq<u8> = old(self).color@;
        let minx = clamp_i32(xc - r, 0, self.width as i32);
        let maxx = clamp_i32((xc + r) + 1, 0, self.width as i32);
        let miny = clamp_i32(yc - r, 0, self.height as i32);
        let maxy = clamp_i32((yc + r) + 1, 0, self.height as i32);

        if filled {
            let ghost f = disc_fill(xc as int, yc as int, r as int, color);
            assert(region_dabs(miny as int, maxy as int, minx as int, maxx as int, f) == disc_dabs(cv, xc as int, yc as int, r as int, color));
            let mut py: i32 = miny;
            while py < maxy
                invariant
                    self.wf(),
                    self.same_setup(*old(self)),
                    cv == self.canvas(),
                    f == disc_fill(xc as int, yc as int, r as int, color),
                    (minx as int, maxx as int, miny as int, maxy as int) == circle_box(cv, xc as int, yc as int, r as int),
                    disc_fits(cv, xc as int, yc as int, r as int),
                    miny <= py,
                    miny <= maxy ==> py <= maxy,
                    maxy < miny ==> py == miny,
                    self.color@ == cv.plot_seq(pix0, region_dabs(miny as int, py as int, minx as int, maxx as int, f), true),
                    cv.plot_seq_req(pix0, region_dabs(miny as int, maxy as int, minx as int, maxx as int, f), true),
                decreases maxy - py,
            {
                let mut px: i32 = minx;
                while px < maxx
                    invariant
                        self.wf(),
                        self.same_setup(*old(self)),
                        cv == self.canvas(),
                        f == disc_fill(xc as int, yc as int, r as int, color),
                        (minx as int, maxx as int, miny as int, maxy as int) == circle_box(cv, xc as int, yc as int, r as int),
                        disc_fits(cv, xc as int, yc as int, r as int),
                        miny <= py < maxy,
                        minx <= px,
                        minx <= maxx ==> px <= maxx,
                        maxx < minx ==> px == minx,
                        self.color@ == cv.plot_seq(pix0, region_dabs(miny as int, py as int, minx as int, maxx as int, f) + row_dabs(py as int, minx as int, px as int, f), true),
                        cv.plot_seq_req(pix0, region_dabs(miny as int, maxy as int, minx as int, maxx as int, f), true),
                    decreases maxx - px,
                {
                    proof {
                        lemma_fill_step(cv, pix0, miny as int, py as int, maxy as int, minx as int, px as int, maxx as int, f, true);
                        let cur = region_dabs(miny as int, py as int, minx as int, maxx as int, f) + row_dabs(py as int, minx as int, px as int, f);
                        assert(cur.push((px, py, color)).drop_last() =~= cur);
                        let bx = circle_box(cv, xc as int, yc as int, r as int);
                        assert(bx.0 <= px < bx.1 && bx.2 <= py < bx.3);
                        assert(fits_i32((px - xc) * (px - xc) + (py - yc) * (py - yc)));
                    }
                    if ((px - xc) * (px - xc)) + ((py - yc) * (py - yc)) <= r * r {
                        assert(f(px as int, py as int) == Some((px, py, color)));
                        let (x_shade, y_shade, color_shade) = self.run_pixel_in_shaders(px, py, color, ShaderParams::new(px, py, color));
                        self.pset(x_shade, y_shade, color_shade);
                    }
                    px = px + 1;
                }
                proof {
                    lemma_fill_row_done(miny as int, py as int, minx as int, maxx as int, f);
                    if maxx < minx {
                        assert(row_dabs(py as int, minx as int, px as int, f) =~= row_dabs(py as int, minx as int, maxx as int, f));
                    }
                }
                py = py + 1;
            }
            proof {
                if maxy < miny {
                    assert(region_dabs(miny as int, py as int, minx as int, maxx as int, f) =~= region_dabs(miny as int, maxy as int, minx as int, maxx as int, f));
                }
            }
        } else {
            let ghost all: Seq<(int, int)> = circle_points(xc as int, yc as int, r as int);
            let mut x: i32 = 0;
            let mut y: i32 = r;
            let mut d: i128 = 3 - 2 * (r as i128);
            let ghost mut fuel: nat = if r >= 0 { (r + 1) as nat } else { 0 };
            let ghost mut done: Seq<(int, int)> = octants(xc as int, yc as int, 0, r as int);
            proof {
                let first = circle_from(xc as int, yc as int, 0, r as int, 3 - 2 * r, fuel);
                assert(all =~= Seq::<(int, int)>::empty() + (done + first));
                lemma_outline_part(cv, all, Seq::<(int, int)>::empty(), done, first);
            }
            self.pset_octants(xc, yc, x, y, color);
            while y >= x
                invariant
                    self.wf(),
                    self.same_setup(*old(self)),
                    cv == self.canvas(),
                    all == circle_points(xc as int, yc as int, r as int),
                    outline_ok(cv, all),
                    fits_i32(3 - 2 * r),
                    0 <= x,
                    y <= r,
                    y >= x ==> x <= r,
                    r >= 0 || y < x,
                    y >= x ==> fuel >= y - x + 1,
                    d == 2 * (x * x) + 2 * (y * y) - 2 * (r * r) + 8 * x - 6 * y + 4 * r + 3,
                    done + circle_from(xc as int, yc as int, x as int, y as int, d as int, fuel) == all,
                    self.color@ == cv.pset_seq(pix0, done, color),
                decreases y - x + 2,
            {
                proof {
                    assert(-1 <= y);
                    assert(x * x <= r * r) by (nonlinear_arith)
                        requires
                            0 <= x <= r,
                    ;
                    assert(y * y <= (r + 1) * (r + 1)) by (nonlinear_arith)
                        requires
                            -1 <= y <= r,
                            0 <= r,
                    ;
                    assert((r + 1) * (r + 1) <= 0x1_0000_0000_0000_0000) by (nonlinear_arith)
                        requires
                            0 <= r <= 0x7fff_ffff,
                    ;
                    assert(0 <= r * r <= 0x1_0000_0000_0000_0000) by (nonlinear_arith)
                        requires
                            0 <= r <= 0x7fff_ffff,
                    ;
                    assert(0 <= x * x && 0 <= y * y) by (nonlinear_arith);
                    assert((x + 1) * (x + 1) <= (r + 1) * (r + 1)) by (nonlinear_arith)
                        requires
                            0 <= x <= r,
                    ;
                }
                let ghost old_x = x;
                let ghost old_y = y;
                let ghost old_d = d;
                x = x + 1;
                if d > 0 {
                    y = y - 1;
                    d = d + 4 * ((x - y) as i128) + 10;
                } else {
                    d = d + 4 * (x as i128) + 6;
                }
                proof {
                    assert(d == 2 * (x * x) + 2 * (y * y) - 2 * (r * r) + 8 * x - 6 * y + 4 * r + 3) by (nonlinear_arith)
                        requires
                            old_d == 2 * (old_x * old_x) + 2 * (old_y * old_y) - 2 * (r * r) + 8 * old_x - 6 * old_y + 4 * r + 3,
                            x == old_x + 1,
                            old_d > 0 ==> (y == old_y - 1 && d == old_d + 4 * (x - y) + 10),
                            old_d <= 0 ==> (y == old_y && d == old_d + 4 * x + 6),
                    ;
                    let step = octants(xc as int, yc as int, x as int, y as int);
                    let rest = circle_from(xc as int, yc as int, x as int, y as int, d as int, (fuel - 1) as nat);
                    assert(circle_from(xc as int, yc as int, old_x as int, old_y as int, old_d as int, fuel) == step + rest);
                    assert(done + (step + rest) =~= (done + step) + rest);
                    lemma_outline_part(cv, all, done, step, rest);
                    lemma_pset_seq_concat(cv, pix0, done, step, color);
                }
                self.pset_octants(xc, yc, x, y, color);
                proof {
                    done = done + octants(xc as int, yc as int, x as int, y as int);
                    fuel = (fuel - 1) as nat;
                }
            }
            proof {
                assert(done =~= all);
            }
        }
    }

    /// Draws an image directly to the screen with its top-left corner at (x, y). Fully
    /// transparent pixels are skipped, and so are those that land outside the columns
    /// 0..=width and rows 0..=height; the rest are shaded and set with `pset`.
    pub fn pimg(&mut self, image: &Buffer, x: i32, y: i32)
        requires
            old(self).wf(),
            image.wf(),
            image_fits(*image, x as int, y as int),
            old(self).canvas().plot_seq_req(old(self).color@, image_dabs(old(self).canvas(), *image, x as int, y as int), true),
        ensures
            final(self).wf(),
            final(self).same_setup(*old(self)),
            final(self).color@ == old(self).canvas().plot_seq(old(self).color@, image_dabs(old(self).canvas(), *image, x as int, y as int), true),
    {
        let ghost cv: Canvas = old(self).canvas();
        let ghost pix0: Seq<u8> = old(self).color@;
        let ghost f = image_fill(cv, *image, x as int, y as int);
        let iw: i32 = image.width as i32;
        let ih: i32 = image.height as i32;
        let zero: i32 = 0;

            let mut ly: i32 = zero;
            while ly < ih
                invariant
                    self.wf(),
                    self.same_setup(*old(self)),
                    cv == self.canvas(),
                    f == image_fill(cv, *image, x as int, y as int),
                    image.wf(),
                    image_fits(*image, x as int, y as int),
                    iw == image.width,
                    ih == image.height,
                    zero == 0,
                    zero <= ly,
                    zero <= ih ==> ly <= ih,
                    ih < zero ==> ly == zero,
                    self.color@ == cv.plot_seq(pix0, region_dabs(zero as int, ly as int, zero as int, iw as int, f), true),
                    cv.plot_seq_req(pix0, region_dabs(zero as int, ih as int, zero as int, iw as int, f), true),
                decreases ih - ly,
            {
                let mut lx: i32 = zero;
                while lx < iw
                    invariant
                        self.wf(),
                        self.same_setup(*old(self)),
                        cv == self.canvas(),
                        f == image_fill(cv, *image, x as int, y as int),
                    image.wf(),
                    image_fits(*image, x as int, y as int),
                    iw == image.width,
                    ih == image.height,
                    zero == 0,
                        zero <= ly < ih,
                        zero <= lx,
                        zero <= iw ==> lx <= iw,
                        iw < zero ==> lx == zero,
                        self.color@ == cv.plot_seq(pix0, region_dabs(zero as int, ly as int, zero as int, iw as int, f) + row_dabs(ly as int, zero as int, lx as int, f), true),
                        cv.plot_seq_req(pix0, region_dabs(zero as int, ih as int, zero as int, iw as int, f), true),
                    decreases iw - lx,
                {
                    proof {
                        lemma_fill_step(cv, pix0, zero as int, ly as int, ih as int, zero as int, lx as int, iw as int, f, true);
                        let cur = region_dabs(zero as int, ly as int, zero as int, iw as int, f) + row_dabs(ly as int, zero as int, lx as int, f);
                        if f(lx as int, ly as int) is Some {
                            assert(cur.push(f(lx as int, ly as int).unwrap()).drop_last() =~= cur);
                        }
                        assert(image.canvas().pget_req(lx as int, ly as int));
                    }
                    let pc = image.pget(lx, ly);
                    let qx = x + lx;
                    let qy = y + ly;
                    if !(pc.a <= 0 || (qx < 0 || qx > self.width as i32) || (qy < 0 || qy > self.height as i32)) {
                        assert(f(lx as int, ly as int) == Some((qx, qy, pc)));
                        let (x_shade, y_shade, color_shade) = self.run_pixel_in_shaders(qx, qy, pc, ShaderParams::new(qx, qy, pc));
                        self.pset(x_shade, y_shade, color_shade);
                    }
                    lx = lx + 1;
                }
                proof {
                    lemma_fill_row_done(zero as int, ly as int, zero as int, iw as int, f);
                    if iw < zero {
                        assert(row_dabs(ly as int, zero as int, lx as int, f) =~= row_dabs(ly as int, zero as int, iw as int, f));
                    }
                }
                ly = ly + 1;
            }
            proof {
                if ih < zero {
                    assert(region_dabs(zero as int, ly as int, zero as int, iw as int, f) =~= region_dabs(zero as int, ih as int, zero as int, iw as int, f));
                }
            }
    }

    /// Draws a section of an image directly to the screen: the section with its corner at
    /// (rx, ry), `rw` by `rh` pixels and wrapped around the image, lands with its corner at
    /// (x, y); every pixel is shaded and set with `pset`, which leaves out the pixels landing
    /// off the buffer.
    pub fn pimgrect(&mut self, image: &Buffer, x: i32, y: i32, rx: i32, ry: i32, rw: i32, rh: i32)
        requires
            old(self).wf(),
            image.wf(),
            fits_i32(rx + rw),
            fits_i32(ry + rh),
            image_rect_fits(old(self).canvas(), *image, x as int, y as int, rx as int, ry as int, rw as int, rh as int),
            old(self).canvas().plot_seq_req(old(self).color@, image_rect_dabs(old(self).canvas(), *image, x as int, y as int, rx as int, ry as int, rw as int, rh as int), true),
        ensures
            final(self).wf(),
            final(self).same_setup(*old(self)),
            final(self).color@ == old(self).canvas().plot_seq(old(self).color@, image_rect_dabs(old(self).canvas(), *image, x as int, y as int, rx as int, ry as int, rw as int, rh as int), true),
    {
        let ghost cv: Canvas = old(self).canvas();
        let ghost pix0: Seq<u8> = old(self).color@;
        let ghost f = image_rect_fill(*image, x as int, y as int, rx as int, ry as int);
        let range_x: i32 = rx + rw;
        let range_y: i32 = ry + rh;

        let mut ly: i32 = ry;
        while ly < range_y
            invariant
                self.wf(),
                self.same_setup(*old(self)),
                cv == self.canvas(),
                f == image_rect_fill(*image, x as int, y as int, rx as int, ry as int),
                image.wf(),
                (rx as int, range_x as int, ry as int, range_y as int) == image_rect_box(cv, rx as int, ry as int, rw as int, rh as int),
                image_rect_fits(cv, *image, x as int, y as int, rx as int, ry as int, rw as int, rh as int),
                ry <= ly,
                ry <= range_y ==> ly <= range_y,
                range_y < ry ==> ly == ry,
                self.color@ == cv.plot_seq(pix0, region_dabs(ry as int, ly as int, rx as int, range_x as int, f), true),
                cv.plot_seq_req(pix0, region_dabs(ry as int, range_y as int, rx as int, range_x as int, f), true),
            decreases range_y - ly,
        {
            let mut lx: i32 = rx;
            while lx < range_x
                invariant
                    self.wf(),
                    self.same_setup(*old(self)),
                    cv == self.canvas(),
                    f == image_rect_fill(*image, x as int, y as int, rx as int, ry as int),
                    image.wf(),
                    (rx as int, range_x as int, ry as int, range_y as int) == image_rect_box(cv, rx as int, ry as int, rw as int, rh as int),
                    image_rect_fits(cv, *image, x as int, y as int, rx as int, ry as int, rw as int, rh as int),
                    ry <= ly < range_y,
                    rx <= lx,
                    rx <= range_x ==> lx <= range_x,
                    range_x < rx ==> lx == rx,
                    self.color@ == cv.plot_seq(pix0, region_dabs(ry as int, ly as int, rx as int, range_x as int, f) + row_dabs(ly as int, rx as int, lx as int, f), true),
                    cv.plot_seq_req(pix0, region_dabs(ry as int, range_y as int, rx as int, range_x as int, f), true),
                decreases range_x - lx,
            {
                proof {
                    lemma_fill_step(cv, pix0, ry as int, ly as int, range_y as int, rx as int, lx as int, range_x as int, f, true);
                    let cur = region_dabs(ry as int, ly as int, rx as int, range_x as int, f) + row_dabs(ly as int, rx as int, lx as int, f);
                    if f(lx as int, ly as int) is Some {
                        assert(cur.push(f(lx as int, ly as int).unwrap()).drop_last() =~= cur);
                    }
                    let bx = image_rect_box(cv, rx as int, ry as int, rw as int, rh as int);
                    assert(bx.0 <= lx < bx.1 && bx.2 <= ly < bx.3);
                    assert(image.canvas().pget_req(lx as int % (image.width as int), ly as int % (image.height as int)));
                }
                let mlx: i32 = rem_euclid_i32(lx, image.width as i32);
                let mly: i32 = rem_euclid_i32(ly, image.height as i32);
                let qx: i32 = (x + mlx) - rx;
                let qy: i32 = (y + mly) - ry;
                let pc = image.pget(mlx, mly);
                assert(f(lx as int, ly as int) == Some((qx, qy, pc)));
                let (x_shade, y_shade, color_shade) = self.run_pixel_in_shaders(qx, qy, pc, ShaderParams::new(qx, qy, pc));
                self.pset(x_shade, y_shade, color_shade);
                lx = lx + 1;
            }
            proof {
                lemma_fill_row_done(ry as int, ly as int, rx as int, range_x as int, f);
                if range_x < rx {
                    assert(row_dabs(ly as int, rx as int, lx as int, f) =~= row_dabs(ly as int, rx as int, range_x as int, f));
                }
            }
            ly = ly + 1;
        }
        proof {
            if range_y < ry {
                assert(region_dabs(ry as int, ly as int, rx as int, range_x as int, f) =~= region_dabs(ry as int, range_y as int, rx as int, range_x as int, f));
            }
        }
    }

    /// Draws a triangle directly to the screen, using a texture. The texture wraps to fit
    /// inside the triangle: the pixel (ix, iy) of the triangle reads the texture at
    /// (ix, iy) wrapped around it. Pixels are shaded and set with `pset_panic_oob`.
    pub fn ptritex(&mut self, x0: i32, y0: i32, x1: i32, y1: i32, x2: i32, y2: i32, image: &Buffer)
        requires
            old(self).wf(),
            image.wf(),
            texture_fits(old(self).canvas(), *image, x0 as int, y0 as int, x1 as int, y1 as int, x2 as int, y2 as int),
            old(self).canvas().plot_seq_req(old(self).color@, texture_dabs(old(self).canvas(), *image, x0 as int, y0 as int, x1 as int, y1 as int, x2 as int, y2 as int), false),
        ensures
            final(self).wf(),
            final(self).same_setup(*old(self)),
            final(self).color@ == old(self).canvas().plot_seq(old(self).color@, texture_dabs(old(self).canvas(), *image, x0 as int, y0 as int, x1 as int, y1 as int, x2 as int, y2 as int), false),
    {
        let ghost cv: Canvas = old(self).canvas();
        let ghost pix0: Seq<u8> = old(self).color@;
        let ghost f = texture_fill(*image, x0 as int, y0 as int, x1 as int, y1 as int, x2 as int, y2 as int);
        let xmin = clamp_i32(min3_i32(x0, x1, x2), 0, self.width as i32);
        let xmax = clamp_i32(max3_i32(x0, x1, x2), 0, self.width as i32);
        let ymin = clamp_i32(min3_i32(y0, y1, y2), 0, self.height as i32);
        let ymax = clamp_i32(max3_i32(y0, y1, y2), 0, self.height as i32);

            let mut iy: i32 = ymin;
            while iy < ymax
                invariant
                    self.wf(),
                    self.same_setup(*old(self)),
                    cv == self.canvas(),
                    f == texture_fill(*image, x0 as int, y0 as int, x1 as int, y1 as int, x2 as int, y2 as int),
                    image.wf(),
                    (xmin as int, xmax as int, ymin as int, ymax as int) == texture_box(cv, x0 as int, y0 as int, x1 as int, y1 as int, x2 as int, y2 as int),
                    texture_fits(cv, *image, x0 as int, y0 as int, x1 as int, y1 as int, x2 as int, y2 as int),
                    ymin <= iy,
                    ymin <= ymax ==> iy <= ymax,
                    ymax < ymin ==> iy == ymin,
                    self.color@ == cv.plot_seq(pix0, region_dabs(ymin as int, iy as int, xmin as int, xmax as int, f), false),
                    cv.plot_seq_req(pix0, region_dabs(ymin as int, ymax as int, xmin as int, xmax as int, f), false),
                decreases ymax - iy,
            {
                let mut ix: i32 = xmin;
                while ix < xmax
                    invariant
                        self.wf(),
                        self.same_setup(*old(self)),
                        cv == self.canvas(),
                        f == texture_fill(*image, x0 as int, y0 as int, x1 as int, y1 as int, x2 as int, y2 as int),
                    image.wf(),
                    (xmin as int, xmax as int, ymin as int, ymax as int) == texture_box(cv, x0 as int, y0 as int, x1 as int, y1 as int, x2 as int, y2 as int),
                    texture_fits(cv, *image, x0 as int, y0 as int, x1 as int, y1 as int, x2 as int, y2 as int),
                        ymin <= iy < ymax,
                        xmin <= ix,
                        xmin <= xmax ==> ix <= xmax,
                        xmax < xmin ==> ix == xmin,
                        self.color@ == cv.plot_seq(pix0, region_dabs(ymin as int, iy as int, xmin as int, xmax as int, f) + row_dabs(iy as int, xmin as int, ix as int, f), false),
                        cv.plot_seq_req(pix0, region_dabs(ymin as int, ymax as int, xmin as int, xmax as int, f), false),
                    decreases xmax - ix,
                {
                    proof {
                        lemma_fill_step(cv, pix0, ymin as int, iy as int, ymax as int, xmin as int, ix as int, xmax as int, f, false);
                        let cur = region_dabs(ymin as int, iy as int, xmin as int, xmax as int, f) + row_dabs(iy as int, xmin as int, ix as int, f);
                        if f(ix as int, iy as int) is Some {
                            assert(cur.push(f(ix as int, iy as int).unwrap()).drop_last() =~= cur);
                        }
                        let bx = texture_box(cv, x0 as int, y0 as int, x1 as int, y1 as int, x2 as int, y2 as int);
                        assert(bx.0 <= ix < bx.1 && bx.2 <= iy < bx.3);
                        assert(in_triangle_fits(ix as int, iy as int, x0 as int, y0 as int, x1 as int, y1 as int, x2 as int, y2 as int));
                    }
                    let is_inside = point_in_triangle(ix, iy, x0, y0, x1, y1, x2, y2);
                    if is_inside {
                        let pc = image.pget_wrap(ix, iy);
                        assert(f(ix as int, iy as int) == Some((ix, iy, pc)));
                        let (x_shade, y_shade, color_shade) = self.run_pixel_in_shaders(ix, iy, pc, ShaderParams::new(ix, iy, pc));
                        self.pset_panic_oob(x_shade, y_shade, color_shade);
                    }
                    ix = ix + 1;
                }
                proof {
                    lemma_fill_row_done(ymin as int, iy as int, xmin as int, xmax as int, f);
                    if xmax < xmin {
                        assert(row_dabs(iy as int, xmin as int, ix as int, f) =~= row_dabs(iy as int, xmin as int, xmax as int, f));
                    }
                }
                iy = iy + 1;
            }
            proof {
                if ymax < ymin {
                    assert(region_dabs(ymin as int, iy as int, xmin as int, xmax as int, f) =~= region_dabs(ymin as int, ymax as int, xmin as int, xmax as int, f));
                }
            }
    }

    /// Counts the pixels of the line between two points without drawing anything.
    pub fn cline(&mut self, x0: i32, y0: i32, x1: i32, y1: i32) -> (pixel_count: u32)
        requires
            line_fits(x0 as int, y0 as int, x1 as int, y1 as int),
        ensures
            *final(self) == *old(self),
            pixel_count == line_points(x0 as int, y0 as int, x1 as int, y1 as int).len(),
            pixel_count == if abs_int(x1 - x0) >= abs_int(y1 - y0) {
                abs_int(x1 - x0) + 1
            } else {
                abs_int(y1 - y0) + 1
            },
    {
        let mut pixel_count: u32 = 0;
        let (mut cx, mut cy) = (x0, y0);

        let dx: i32 = if x1 - x0 < 0 { -(x1 - x0) } else { x1 - x0 };
        let sx: i32 = if x0 < x1 { 1 } else { -1 };
        let dy: i32 = if y1 - y0 < 0 { y1 - y0 } else { -(y1 - y0) };
        let sy: i32 = if y0 < y1 { 1 } else { -1 };
        let mut error: i32 = dx + dy;
        let ghost mut fuel: nat = (dx - dy) as nat;
        let ghost total: nat = line_points(x0 as int, y0 as int, x1 as int, y1 as int).len();
        proof {
            lemma_line_from_len(cx as int, cy as int, error as int, x1 as int, y1 as int, dx as int, dy as int, sx as int, sy as int, fuel);
        }

        loop
            invariant_except_break
                *self == *old(self),
                dx == abs_int(x1 - x0),
                dy == -abs_int(y1 - y0),
                sx == step_toward(x0 as int, x1 as int),
                sy == step_toward(y0 as int, y1 as int),
                3 * dx <= i32::MAX,
                3 * (-dy) <= i32::MAX,
                sx == 1 ==> x0 <= cx <= x1,
                sx == -1 ==> x1 <= cx <= x0,
                sy == 1 ==> y0 <= cy <= y1,
                sy == -1 ==> y1 <= cy <= y0,
                3 * dy <= 2 * error <= 3 * dx,
                fuel >= abs_int(x1 - cx) + abs_int(y1 - cy),
                pixel_count + line_from(cx as int, cy as int, error as int, x1 as int, y1 as int, dx as int, dy as int, sx as int, sy as int, fuel).len() == total,
                pixel_count == dx - dy - fuel,
                fuel <= dx - dy,
                dx - dy <= i32::MAX,
            ensures
                *self == *old(self),
                pixel_count == total,
            decreases abs_int(x1 - cx) + abs_int(y1 - cy),
        {
            let ghost rest: Seq<(int, int)> = line_from(cx as int, cy as int, error as int, x1 as int, y1 as int, dx as int, dy as int, sx as int, sy as int, fuel);
            proof {
                lemma_line_from_len(cx as int, cy as int, error as int, x1 as int, y1 as int, dx as int, dy as int, sx as int, sy as int, fuel);
            }
            pixel_count = pixel_count + 1;
            if cx == x1 && cy == y1 {
                break;
            }
            let e2: i32 = 2 * error;
            if e2 >= dy {
                if cx == x1 {
                    break;
                }
                error = error + dy;
                cx = cx + sx;
            }
            if e2 <= dx {
                if cy == y1 {
                    break;
                }
                error = error + dx;
                cy = cy + sy;
            }
            proof {
                fuel = (fuel - 1) as nat;
            }
        }
        proof {
            crate::laws::law_line_count(x0 as int, y0 as int, x1 as int, y1 as int);
        }
        pixel_count
    }
}

} // verus!

verus! {

/// The color of the pixel (x, y) of the placeholder image: a checkerboard of 4 by 4 pixel
/// squares, magenta and black, black in the top-left corner.
pub open spec fn checker_color(x: int, y: int) -> Color {
    if (x / 4 + y / 4) % 2 == 1 {
        Color { r: 255, g: 0, b: 255, a: 255 }
    } else {
        Color { r: 0, g: 0, b: 0, a: 255 }
    }
}

impl Default for Buffer {
    /// A 32 by 32 placeholder image: a magenta and black checkerboard of 4 by 4 squares,
    /// drawn as filled rectangles over a red background.
    fn default() -> (b: Buffer)
        ensures
            b.wf(),
            b.width == 32,
            b.height == 32,
            b.shader_stack@.len() == 0,
            b.is_drawing,
            b.offset_x == 0,
            b.offset_y == 0,
            forall|px: int, py: int| 0 <= px < 32 && 0 <= py < 32 ==> #[trigger] pixel_at(b.color@, 32, px, py) == checker_color(px, py),
    {
        let mut missing: Buffer = Buffer::new(32, 32);
        missing.clear_color(Color::red());
        proof {
            assert forall|px: int, py: int| 0 <= px < 32 && 0 <= py < 32 implies #[trigger] pixel_at(missing.color@, 32, px, py) == Color::red_spec() by {
                lemma_index_in_bounds(32, 32, px, py);
                let i = (py * 32 + px) * 4;
                assert(missing.color@[i] == channel(Color::red_spec(), i % 4));
                assert(missing.color@[i + 1] == channel(Color::red_spec(), (i + 1) % 4));
                assert(missing.color@[i + 2] == channel(Color::red_spec(), (i + 2) % 4));
                assert(missing.color@[i + 3] == channel(Color::red_spec(), (i + 3) % 4));
            }
        }
        let mut iy: i32 = 0;
        while iy < 16
            invariant
                missing.wf(),
                missing.width == 32,
                missing.height == 32,
                missing.shader_stack@.len() == 0,
                missing.is_drawing,
                missing.offset_x == 0,
                missing.offset_y == 0,
                0 <= iy <= 16,
                forall|px: int, py: int|
                    0 <= px < 32 && 0 <= py < 32 ==> #[trigger] pixel_at(missing.color@, 32, px, py) == if py / 4 < iy {
                        checker_color(px, py)
                    } else {
                        Color::red_spec()
                    },
            decreases 16 - iy,
        {
            let mut ix: i32 = 0;
            while ix < 16
                invariant
                    missing.wf(),
                    missing.width == 32,
                    missing.height == 32,
                    missing.shader_stack@.len() == 0,
                    missing.is_drawing,
                    missing.offset_x == 0,
                    missing.offset_y == 0,
                    0 <= iy < 16,
                    0 <= ix <= 16,
                    forall|px: int, py: int|
                        0 <= px < 32 && 0 <= py < 32 ==> #[trigger] pixel_at(missing.color@, 32, px, py) == if py / 4 < iy || (py / 4 == iy
                            && px / 4 < ix) {
                            checker_color(px, py)
                        } else {
                            Color::red_spec()
                        },
                decreases 16 - ix,
            {
                let color: Color = if iy % 2 == 0 {
                    if ix % 2 == 1 {
                        Color::magenta()
                    } else {
                        Color::black()
                    }
                } else {
                    if ix % 2 == 0 {
                        Color::magenta()
                    } else {
                        Color::black()
                    }
                };
                let ghost cv: Canvas = missing.canvas();
                let ghost pix: Seq<u8> = missing.color@;
                let ghost x0: int = clamp_spec(ix * 4, 0, 32);
                let ghost x1: int = clamp_spec(ix * 4 + 4, 0, 32);
                let ghost y0: int = clamp_spec(iy * 4, 0, 32);
                let ghost y1: int = clamp_spec(iy * 4 + 4, 0, 32);
                proof {
                    lemma_fill_rect_plain(cv, pix, y0, y1, x0, x1, color);
                    assert(rect_fill_dabs(cv, ix * 4, iy * 4, 4, 4, color) == region_dabs(y0, y1, x0, x1, solid(color)));
                }
                missing.prectangle(true, ix * 4, iy * 4, 4, 4, color);
                proof {
                    assert forall|px: int, py: int| 0 <= px < 32 && 0 <= py < 32 implies #[trigger] pixel_at(missing.color@, 32, px, py)
                        == if py / 4 < iy || (py / 4 == iy && px / 4 < ix + 1) {
                        checker_color(px, py)
                    } else {
                        Color::red_spec()
                    } by {
                        assert(pixel_at(missing.color@, 32, px, py) == if y0 <= py < y1 && x0 <= px < x1 {
                            color
                        } else {
                            pixel_at(pix, 32, px, py)
                        });
                    }
                }
                ix = ix + 1;
            }
            iy = iy + 1;
        }
        missing
    }
}

} // verus!

verus! {

/// `prectangle` can draw into a canvas `cv` holding the pixels `pix` with these arguments.
pub open spec fn rect_req_on(cv: Canvas, pix: Seq<u8>, filled: bool, x: int, y: int, w: int, h: int, color: Color) -> bool {
    &&& fits_i32(x + w)
    &&& fits_i32(y + h)
    &&& filled ==> cv.plot_seq_req(pix, rect_fill_dabs(cv, x, y, w, h, color), false)
    &&& !filled ==> line_fits(x, y, x + w, y)
    &&& !filled ==> line_fits(x, y + h, x + w, y + h)
    &&& !filled ==> line_fits(x + w, y, x + w, y + h)
    &&& !filled ==> line_fits(x, y, x, y + h)
    &&& !filled ==> cv.plot_seq_req(pix, rect_outline_dabs(x, y, w, h, color), true)
}

/// `prectangle` can draw into `b` with these arguments.
pub open spec fn rect_req(b: Buffer, filled: bool, x: int, y: int, w: int, h: int, color: Color) -> bool {
    &&& b.wf()
    &&& rect_req_on(b.canvas(), b.color@, filled, x, y, w, h, color)
}

/// The pixels `pix` of a canvas `cv` after `prectangle`.
pub open spec fn rect_result_on(cv: Canvas, pix: Seq<u8>, filled: bool, x: int, y: int, w: int, h: int, color: Color) -> Seq<u8> {
    if filled {
        cv.plot_seq(pix, rect_fill_dabs(cv, x, y, w, h, color), false)
    } else {
        cv.plot_seq(pix, rect_outline_dabs(x, y, w, h, color), true)
    }
}

/// The pixels of `b` after `prectangle`.
pub open spec fn rect_result(b: Buffer, filled: bool, x: int, y: int, w: int, h: int, color: Color) -> Seq<u8> {
    rect_result_on(b.canvas(), b.color@, filled, x, y, w, h, color)
}

/// `pcircle` can draw into a canvas `cv` holding the pixels `pix` with these arguments.
pub open spec fn circle_req_on(cv: Canvas, pix: Seq<u8>, filled: bool, xc: int, yc: int, r: int, color: Color) -> bool {
    &&& fits_i32(xc - r)
    &&& fits_i32(xc + r)
    &&& fits_i32(xc + r + 1)
    &&& fits_i32(yc - r)
    &&& fits_i32(yc + r)
    &&& fits_i32(yc + r + 1)
    &&& filled ==> disc_fits(cv, xc, yc, r)
    &&& filled ==> cv.plot_seq_req(pix, disc_dabs(cv, xc, yc, r, color), true)
    &&& !filled ==> fits_i32(3 - 2 * r)
    &&& !filled ==> outline_ok(cv, circle_points(xc, yc, r))
}

/// `pcircle` can draw into `b` with these arguments.
pub open spec fn circle_req(b: Buffer, filled: bool, xc: int, yc: int, r: int, color: Color) -> bool {
    &&& b.wf()
    &&& circle_req_on(b.canvas(), b.color@, filled, xc, yc, r, color)
}

/// The pixels `pix` of a canvas `cv` after `pcircle`.
pub open spec fn circle_result_on(cv: Canvas, pix: Seq<u8>, filled: bool, xc: int, yc: int, r: int, color: Color) -> Seq<u8> {
    if filled {
        cv.plot_seq(pix, disc_dabs(cv, xc, yc, r, color), true)
    } else {
        cv.pset_seq(pix, circle_points(xc, yc, r), color)
    }
}

/// The pixels of `b` after `pcircle`.
pub open spec fn circle_result(b: Buffer, filled: bool, xc: int, yc: int, r: int, color: Color) -> Seq<u8> {
    circle_result_on(b.canvas(), b.color@, filled, xc, yc, r, color)
}

/// `pimg` can draw `image` at (x, y) into a canvas `cv` holding the pixels `pix`.
pub open spec fn img_req_on(cv: Canvas, pix: Seq<u8>, image: Buffer, x: int, y: int) -> bool {
    &&& image.wf()
    &&& image_fits(image, x, y)
    &&& cv.plot_seq_req(pix, image_dabs(cv, image, x, y), true)
}

/// `pimg` can draw `image` into `b` at (x, y).
pub open spec fn img_req(b: Buffer, image: Buffer, x: int, y: int) -> bool {
    &&& b.wf()
    &&& img_req_on(b.canvas(), b.color@, image, x, y)
}

/// The pixels `pix` of a canvas `cv` after `pimg`.
pub open spec fn img_result_on(cv: Canvas, pix: Seq<u8>, image: Buffer, x: int, y: int) -> Seq<u8> {
    cv.plot_seq(pix, image_dabs(cv, image, x, y), true)
}

/// The pixels of `b` after `pimg`.
pub open spec fn img_result(b: Buffer, image: Buffer, x: int, y: int) -> Seq<u8> {
    img_result_on(b.canvas(), b.color@, image, x, y)
}

/// `pimgrect` can draw a section of `image` into a canvas `cv` holding the pixels `pix`.
pub open spec fn imgrect_req_on(cv: Canvas, pix: Seq<u8>, image: Buffer, x: int, y: int, rx: int, ry: int, rw: int, rh: int) -> bool {
    &&& image.wf()
    &&& fits_i32(rx + rw)
    &&& fits_i32(ry + rh)
    &&& image_rect_fits(cv, image, x, y, rx, ry, rw, rh)
    &&& cv.plot_seq_req(pix, image_rect_dabs(cv, image, x, y, rx, ry, rw, rh), true)
}

/// `pimgrect` can draw a section of `image` into `b`.
pub open spec fn imgrect_req(b: Buffer, image: Buffer, x: int, y: int, rx: int, ry: int, rw: int, rh: int) -> bool {
    &&& b.wf()
    &&& imgrect_req_on(b.canvas(), b.color@, image, x, y, rx, ry, rw, rh)
}

/// The pixels `pix` of a canvas `cv` after `pimgrect`.
pub open spec fn imgrect_result_on(cv: Canvas, pix: Seq<u8>, image: Buffer, x: int, y: int, rx: int, ry: int, rw: int, rh: int) -> Seq<u8> {
    cv.plot_seq(pix, image_rect_dabs(cv, image, x, y, rx, ry, rw, rh), true)
}

/// The pixels of `b` after `pimgrect`.
pub open spec fn imgrect_result(b: Buffer, image: Buffer, x: int, y: int, rx: int, ry: int, rw: int, rh: int) -> Seq<u8> {
    imgrect_result_on(b.canvas(), b.color@, image, x, y, rx, ry, rw, rh)
}

} // verus!
