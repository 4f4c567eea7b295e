//! An image in memory with operations to draw into it.
use vstd::prelude::*;
use crate::color::Color;
use crate::math::fits_i32;
use crate::shader::{Shader, ShaderParams};
use crate::region::Dab;

verus! {

/// The color stored at byte index `i` of a pixel buffer.
pub open spec fn read_pixel(pix: Seq<u8>, i: int) -> Color {
    Color { r: pix[i], g: pix[i + 1], b: pix[i + 2], a: pix[i + 3] }
}

/// The pixel buffer with the color `c` stored at byte index `i`.
pub open spec fn write_pixel(pix: Seq<u8>, i: int, c: Color) -> Seq<u8> {
    pix.update(i, c.r).update(i + 1, c.g).update(i + 2, c.b).update(i + 3, c.a)
}

/// Channel `k` of a color: 0 red, 1 green, 2 blue, 3 alpha.
pub open spec fn channel(c: Color, k: int) -> u8 {
    if k == 0 {
        c.r
    } else if k == 1 {
        c.g
    } else if k == 2 {
        c.b
    } else {
        c.a
    }
}

/// A shader together with whether it runs and where it stands in the stack.
#[derive(Clone, Copy, Debug)]
pub struct BufferShader {
    pub shader: Shader,
    pub active: bool,
    pub order: u8,
}

impl BufferShader {
    pub fn new(shader: Shader, active: bool, order: u8) -> (s: BufferShader)
        ensures
            s == (BufferShader { shader, active, order }),
    {
        BufferShader { shader, active, order }
    }
}

/// Runs the active shaders of `stack` in turn on the dab `d`. A shader that returns a
/// pixel replaces the dab; one that returns nothing leaves it as it was.
pub open spec fn shade_through(stack: Seq<BufferShader>, pix: Seq<u8>, width: usize, d: Dab) -> Dab
    decreases stack.len(),
{
    if stack.len() == 0 {
        d
    } else {
        let p = shade_through(stack.drop_last(), pix, width, d);
        let s = stack.last();
        if s.active {
            match s.shader.shade_spec(pix, width, p.0, p.1, p.2) {
                Some(q) => q,
                None => p,
            }
        } else {
            p
        }
    }
}

/// Every active shader of `stack` can run on what the shaders before it hand on.
pub open spec fn shade_through_ok(stack: Seq<BufferShader>, pix: Seq<u8>, width: usize, d: Dab) -> bool
    decreases stack.len(),
{
    if stack.len() == 0 {
        true
    } else {
        let p = shade_through(stack.drop_last(), pix, width, d);
        let s = stack.last();
        &&& shade_through_ok(stack.drop_last(), pix, width, d)
        &&& (s.active ==> s.shader.shade_req(pix, width, p.0, p.1, p.2))
    }
}

proof fn lemma_shade_through_ok_take(stack: Seq<BufferShader>, pix: Seq<u8>, width: usize, d: Dab, k: int)
    requires
        0 <= k <= stack.len(),
        shade_through_ok(stack, pix, width, d),
    ensures
        shade_through_ok(stack.take(k), pix, width, d),
    decreases stack.len(),
{
    if k == stack.len() {
        assert(stack.take(k) =~= stack);
    } else {
        lemma_shade_through_ok_take(stack.drop_last(), pix, width, d, k);
        assert(stack.drop_last().take(k) =~= stack.take(k));
    }
}

/// What drawing into a buffer depends on besides its pixels: its size, whether drawing is
/// enabled and its shaders.
pub struct Canvas {
    pub width: usize,
    pub height: usize,
    pub drawing: bool,
    pub shaders: Seq<BufferShader>,
}

impl Canvas {
    /// (x, y) is a pixel of the canvas.
    pub open spec fn in_bounds(self, x: int, y: int) -> bool {
        0 <= x < self.width && 0 <= y < self.height
    }

    /// The byte index of the pixel (x, y): `(y * width + x) * 4`.
    pub open spec fn index_of(self, x: int, y: int) -> int {
        (y * self.width + x) * 4
    }

    /// The index arithmetic for (x, y) stays within `i32`.
    pub open spec fn index_fits(self, x: int, y: int) -> bool {
        &&& fits_i32(y * self.width)
        &&& fits_i32(y * self.width + x)
        &&& fits_i32((y * self.width + x) * 4)
    }

    /// `pset` on (x, y) does not fail: when drawing is enabled, the index arithmetic fits
    /// `i32` and the canvas is not empty.
    pub open spec fn pset_req(self, x: int, y: int) -> bool {
        self.drawing ==> (self.index_fits(x, y) && self.width * self.height > 0)
    }

    /// The pixels after `pset` of (x, y) to `c`: written when drawing is enabled and (x, y)
    /// is on the canvas, unchanged otherwise.
    pub open spec fn pset_spec(self, pix: Seq<u8>, x: int, y: int, c: Color) -> Seq<u8> {
        if self.drawing && self.in_bounds(x, y) {
            write_pixel(pix, self.index_of(x, y), c)
        } else {
            pix
        }
    }

    /// `pset_panic_oob` on (x, y) does not fail: the index arithmetic fits `i32` and the
    /// four bytes at the index lie inside the buffer.
    pub open spec fn poke_req(self, x: int, y: int) -> bool {
        &&& self.index_fits(x, y)
        &&& 0 <= self.index_of(x, y)
        &&& self.index_of(x, y) + 3 < self.width * self.height * 4
    }

    /// The pixels after `pset_panic_oob` of (x, y) to `c`.
    pub open spec fn poke_spec(self, pix: Seq<u8>, x: int, y: int, c: Color) -> Seq<u8> {
        write_pixel(pix, self.index_of(x, y), c)
    }

    /// The dab `d` after the shaders of the canvas ran on it.
    pub open spec fn shade(self, pix: Seq<u8>, d: Dab) -> Dab {
        shade_through(self.shaders, pix, self.width, d)
    }

    /// The pixels after the dab `d` is shaded and then set, with `pset` when `clipped`
    /// and with `pset_panic_oob` otherwise.
    pub open spec fn plot(self, pix: Seq<u8>, d: Dab, clipped: bool) -> Seq<u8> {
        let s = self.shade(pix, d);
        if clipped {
            self.pset_spec(pix, s.0 as int, s.1 as int, s.2)
        } else {
            self.poke_spec(pix, s.0 as int, s.1 as int, s.2)
        }
    }

    /// Shading and setting the dab `d` does not fail.
    pub open spec fn plot_req(self, pix: Seq<u8>, d: Dab, clipped: bool) -> bool {
        let s = self.shade(pix, d);
        &&& shade_through_ok(self.shaders, pix, self.width, d)
        &&& if clipped {
            self.pset_req(s.0 as int, s.1 as int)
        } else {
            self.poke_req(s.0 as int, s.1 as int)
        }
    }

    /// The pixels after the dabs `ds` are plotted in order.
    pub open spec fn plot_seq(self, pix: Seq<u8>, ds: Seq<Dab>, clipped: bool) -> Seq<u8>
        decreases ds.len(),
    {
        if ds.len() == 0 {
            pix
        } else {
            self.plot(self.plot_seq(pix, ds.drop_last(), clipped), ds.last(), clipped)
        }
    }

    /// Plotting the dabs `ds` in order does not fail.
    pub open spec fn plot_seq_req(self, pix: Seq<u8>, ds: Seq<Dab>, clipped: bool) -> bool
        decreases ds.len(),
    {
        if ds.len() == 0 {
            true
        } else {
            &&& self.plot_seq_req(pix, ds.drop_last(), clipped)
            &&& self.plot_req(self.plot_seq(pix, ds.drop_last(), clipped), ds.last(), clipped)
        }
    }

    /// The pixels after `pset` (without shaders) of the points `ps` in order.
    pub open spec fn pset_seq(self, pix: Seq<u8>, ps: Seq<(int, int)>, c: Color) -> Seq<u8>
        decreases ps.len(),
    {
        if ps.len() == 0 {
            pix
        } else {
            self.pset_spec(self.pset_seq(pix, ps.drop_last(), c), ps.last().0, ps.last().1, c)
        }
    }

    /// The color that `pget` reads at (x, y): the stored pixel on the canvas,
    /// transparent black elsewhere.
    pub open spec fn pget_spec(self, pix: Seq<u8>, x: int, y: int) -> Color {
        if self.in_bounds(x, y) {
            read_pixel(pix, self.index_of(x, y))
        } else {
            Color { r: 0, g: 0, b: 0, a: 0 }
        }
    }

    /// `pget` on (x, y) does not fail.
    pub open spec fn pget_req(self, x: int, y: int) -> bool {
        self.index_fits(x, y) && self.width * self.height > 0
    }
}

/// A prefix of a sequence of dabs that can be plotted can be plotted.
pub proof fn lemma_plot_seq_req_prefix(cv: Canvas, pix: Seq<u8>, a: Seq<Dab>, b: Seq<Dab>, clipped: bool)
    requires
        cv.plot_seq_req(pix, a + b, clipped),
    ensures
        cv.plot_seq_req(pix, a, clipped),
    decreases b.len(),
{
    if b.len() == 0 {
        assert(a + b =~= a);
    } else {
        assert((a + b).drop_last() =~= a + b.drop_last());
        lemma_plot_seq_req_prefix(cv, pix, a, b.drop_last(), clipped);
    }
}

/// Plotting two sequences of dabs one after the other is plotting their concatenation.
pub proof fn lemma_plot_seq_concat(cv: Canvas, pix: Seq<u8>, a: Seq<Dab>, b: Seq<Dab>, clipped: bool)
    ensures
        cv.plot_seq(pix, a + b, clipped) == cv.plot_seq(cv.plot_seq(pix, a, clipped), b, clipped),
        cv.plot_seq_req(pix, a + b, clipped) == (cv.plot_seq_req(pix, a, clipped) && cv.plot_seq_req(
            cv.plot_seq(pix, a, clipped),
            b,
            clipped,
        )),
    decreases b.len(),
{
    if b.len() == 0 {
        assert(a + b =~= a);
    } else {
        assert((a + b).drop_last() =~= a + b.drop_last());
        lemma_plot_seq_concat(cv, pix, a, b.drop_last(), clipped);
    }
}

/// Setting two sequences of points one after the other is setting their concatenation.
pub proof fn lemma_pset_seq_concat(cv: Canvas, pix: Seq<u8>, a: Seq<(int, int)>, b: Seq<(int, int)>, c: Color)
    ensures
        cv.pset_seq(pix, a + b, c) == cv.pset_seq(cv.pset_seq(pix, a, c), b, c),
    decreases b.len(),
{
    if b.len() == 0 {
        assert(a + b =~= a);
    } else {
        assert((a + b).drop_last() =~= a + b.drop_last());
        lemma_pset_seq_concat(cv, pix, a, b.drop_last(), c);
    }
}

/// Image in memory with operations to modify it. Pixels are stored row by row, four bytes
/// each: red, green, blue, alpha.
#[derive(Clone)]
pub struct Buffer {
    pub color: Vec<u8>,
    pub shader_stack: Vec<BufferShader>,
    pub width: usize,
    pub height: usize,
    // For Partitioned Buffer
    pub offset_x: usize,
    pub offset_y: usize,
    pub is_drawing: bool,
}

/// Every byte of the pixels `pix` holds channel `k % 4` of `c`.
pub open spec fn filled_with(pix: Seq<u8>, c: Color) -> bool {
    forall|k: int| 0 <= k < pix.len() ==> #[trigger] pix[k] == channel(c, k % 4)
}

impl Buffer {
    /// The buffer holds exactly `width * height` pixels, and its coordinates fit `i32`.
    pub open spec fn wf(self) -> bool {
        &&& self.color@.len() == self.width * self.height * 4
        &&& self.width <= i32::MAX
        &&& self.height <= i32::MAX
    }

    /// What drawing into this buffer depends on besides its pixels.
    pub open spec fn canvas(self) -> Canvas {
        Canvas { width: self.width, height: self.height, drawing: self.is_drawing, shaders: self.shader_stack@ }
    }

    /// Everything but the pixels is the same in both buffers.
    pub open spec fn same_setup(self, other: Buffer) -> bool {
        &&& self.canvas() == other.canvas()
        &&& self.offset_x == other.offset_x
        &&& self.offset_y == other.offset_y
    }

    /// Makes a new Buffer to draw to a screen-sized buffer, all pixels transparent black.
    ///
    /// # Arguments
    /// * 'width' - Horizontal size of the buffer
    /// * 'height' - Vertical size of the buffer
    pub fn new(width: usize, height: usize) -> (b: Buffer)
        requires
            width <= i32::MAX,
            height <= i32::MAX,
            width * height * 4 <= usize::MAX,
        ensures
            b.wf(),
            b.width == width,
            b.height == height,
            b.offset_x == 0,
            b.offset_y == 0,
            b.is_drawing,
            b.shader_stack@.len() == 0,
            b.color@ == Seq::new((width * height * 4) as nat, |i: int| 0u8),
    {
        let n: usize = width * height * 4;
        let color: Vec<u8> = vec![0; n];
        assert(color@ =~= Seq::new((width * height * 4) as nat, |i: int| 0u8));
        Buffer { shader_stack: Vec::new(), offset_x: 0, offset_y: 0, width, height, color, is_drawing: true }
    }

    /// Clears the buffer and changes its width and height to new values.
    pub fn resize(&mut self, width: usize, height: usize)
        requires
            width <= i32::MAX,
            height <= i32::MAX,
            width * height * 4 <= usize::MAX,
        ensures
            final(self).wf(),
            final(self).width == width,
            final(self).height == height,
            final(self).color@ == Seq::new((width * height * 4) as nat, |i: int| 0u8),
            final(self).shader_stack@ == old(self).shader_stack@,
            final(self).is_drawing == old(self).is_drawing,
            final(self).offset_x == old(self).offset_x,
            final(self).offset_y == old(self).offset_y,
    {
        self.width = width;
        self.height = height;
        let n: usize = width * height * 4;
        self.color = vec![0; n];
        assert(self.color@ =~= Seq::new((width * height * 4) as nat, |i: int| 0u8));
    }

    /// Clears the frame memory directly, leaving a black screen.
    pub fn clear(&mut self)
        requires
            old(self).wf(),
        ensures
            final(self).wf(),
            final(self).same_setup(*old(self)),
            final(self).color@ == Seq::new(old(self).color@.len(), |i: int| 0u8),
    {
        let n: usize = self.color.len();
        self.color = vec![0; n];
        assert(self.color@ =~= Seq::new(old(self).color@.len(), |i: int| 0u8));
    }

    /// Clears the screen to a color.
    /// # Arguments
    /// * 'color' - Color the screen should be cleared to.
    pub fn clear_color(&mut self, color: Color)
        requires
            old(self).wf(),
        ensures
            final(self).wf(),
            final(self).same_setup(*old(self)),
            final(self).color@.len() == old(self).color@.len(),
            filled_with(final(self).color@, color),
    {
        let len: usize = self.color.len();
        let n: usize = len / 4;
        let mut i: usize = 0;
        while i < n
            invariant
                self.wf(),
                self.same_setup(*old(self)),
                self.color@.len() == old(self).color@.len(),
                self.color@.len() == n * 4,
                len == self.color@.len(),
                i <= n,
                forall|k: int| 0 <= k < i * 4 ==> #[trigger] self.color@[k] == channel(color, k % 4),
            decreases n - i,
        {
            let base: usize = i * 4;
            self.color.set(base, color.r);
            self.color.set(base + 1, color.g);
            self.color.set(base + 2, color.b);
            self.color.set(base + 3, color.a);
            proof {
                assert forall|k: int| 0 <= k < (i + 1) * 4 implies #[trigger] self.color@[k] == channel(color, k % 4) by {
                    if k >= i * 4 {
                        assert(k % 4 == k - base);
                    }
                }
            }
            i = i + 1;
        }
    }

    /// Removes every shader.
    pub fn clear_shaders(&mut self)
        ensures
            final(self).shader_stack@.len() == 0,
            final(self).color@ == old(self).color@,
            final(self).width == old(self).width,
            final(self).height == old(self).height,
            final(self).is_drawing == old(self).is_drawing,
            final(self).offset_x == old(self).offset_x,
            final(self).offset_y == old(self).offset_y,
    {
        self.shader_stack.clear();
    }

    /// Draws a pixel to the color buffer: sets (x, y) to `color` when drawing is enabled and
    /// (x, y) lies in the buffer; does nothing otherwise.
    pub fn pset(&mut self, x: i32, y: i32, color: Color)
        requires
            old(self).wf(),
            old(self).canvas().pset_req(x as int, y as int),
        ensures
            final(self).wf(),
            final(self).same_setup(*old(self)),
            final(self).color@ == old(self).canvas().pset_spec(old(self).color@, x as int, y as int, color),
    {
        if !self.is_drawing {
            return;
        }
        let w: i32 = self.width as i32;
        let h: i32 = self.height as i32;
        if x < 0 || x > w - 1 || y < 0 || y > h - 1 {
            return;
        }
        proof {
            lemma_index_in_bounds(self.width as int, self.height as int, x as int, y as int);
        }
        let idx: usize = (y as usize * self.width + x as usize) * 4;
        self.color.set(idx, color.r);
        self.color.set(idx + 1, color.g);
        self.color.set(idx + 2, color.b);
        self.color.set(idx + 3, color.a);
    }

    /// Draws a pixel without the bounds protection of `pset`, and whether drawing is enabled
    /// or not. The four bytes at `(y * width + x) * 4` must lie in the buffer.
    pub fn pset_panic_oob(&mut self, x: i32, y: i32, color: Color)
        requires
            old(self).wf(),
            old(self).canvas().poke_req(x as int, y as int),
        ensures
            final(self).wf(),
            final(self).same_setup(*old(self)),
            final(self).color@ == old(self).canvas().poke_spec(old(self).color@, x as int, y as int, color),
    {
        let w: i32 = self.width as i32;
        let idx: usize = ((y * w + x) * 4) as usize;
        self.color.set(idx, color.r);
        self.color.set(idx + 1, color.g);
        self.color.set(idx + 2, color.b);
        self.color.set(idx + 3, color.a);
    }

    /// Gets a color from the color buffer; transparent black outside the buffer.
    pub fn pget(&self, x: i32, y: i32) -> (c: Color)
        requires
            self.wf(),
            self.canvas().pget_req(x as int, y as int),
        ensures
            c == self.canvas().pget_spec(self.color@, x as int, y as int),
    {
        let w: i32 = self.width as i32;
        let h: i32 = self.height as i32;
        if x < 0 || x > w - 1 || y < 0 || y > h - 1 {
            return Color::clear();
        }
        proof {
            lemma_index_in_bounds(self.width as int, self.height as int, x as int, y as int);
        }
        let idx: usize = (y as usize * self.width + x as usize) * 4;
        Color::new(self.color[idx], self.color[idx + 1], self.color[idx + 2], self.color[idx + 3])
    }

    /// Gets a color from the color buffer, wrapping the coordinates around the edges.
    pub fn pget_wrap(&self, x: i32, y: i32) -> (c: Color)
        requires
            self.wf(),
            self.width > 0,
            self.height > 0,
            self.canvas().index_fits(x as int % self.width as int, y as int % self.height as int),
        ensures
            c == read_pixel(self.color@, self.canvas().index_of(x as int % self.width as int, y as int % self.height as int)),
    {
        let x: i32 = rem_euclid_i32(x, self.width as i32);
        let y: i32 = rem_euclid_i32(y, self.height as i32);
        proof {
            lemma_index_in_bounds(self.width as int, self.height as int, x as int, y as int);
        }
        let idx: usize = (y as usize * self.width + x as usize) * 4;
        Color::new(self.color[idx], self.color[idx + 1], self.color[idx + 2], self.color[idx + 3])
    }

    /// Whether the buffer's shaders can run, in turn, on the pixel (x, y) of `color` without
    /// failing: what `run_pixel_in_shaders` needs.
    pub fn shaders_can_run(&self, x: i32, y: i32, color: Color) -> (ok: bool)
        ensures
            ok == shade_through_ok(self.shader_stack@, self.color@, self.width, (x, y, color)),
    {
        let mut params: ShaderParams = ShaderParams::new(x, y, color);
        let mut results: (i32, i32, Color) = (x, y, color);
        let n: usize = self.shader_stack.len();
        let mut i: usize = 0;
        while i < n
            invariant
                n == self.shader_stack@.len(),
                i <= n,
                shade_through_ok(self.shader_stack@.take(i as int), self.color@, self.width, (x, y, color)),
                results == shade_through(self.shader_stack@.take(i as int), self.color@, self.width, (x, y, color)),
                params.x == results.0,
                params.y == results.1,
                params.color == results.2,
            decreases n - i,
        {
            proof {
                assert(self.shader_stack@.take(i + 1).drop_last() =~= self.shader_stack@.take(i as int));
                assert(self.shader_stack@.take(i + 1).last() == self.shader_stack@[i as int]);
            }
            let bs: BufferShader = self.shader_stack[i];
            if bs.active {
                if !bs.shader.can_shade(self.color.as_slice(), self.width, params.x, params.y, params.color) {
                    proof {
                        let t = self.shader_stack@.take(i + 1);
                        assert(t.drop_last() =~= self.shader_stack@.take(i as int));
                        assert(t.last() == bs);
                        assert(!shade_through_ok(t, self.color@, self.width, (x, y, color)));
                        if shade_through_ok(self.shader_stack@, self.color@, self.width, (x, y, color)) {
                            lemma_shade_through_ok_take(self.shader_stack@, self.color@, self.width, (x, y, color), i + 1);
                        }
                    }
                    return false;
                }
                if let Some(new_results) = bs.shader.shade(self.color.as_slice(), self.width, self.height, params) {
                    results = new_results;
                    params.x = results.0;
                    params.y = results.1;
                    params.color = results.2;
                }
            }
            i = i + 1;
        }
        assert(self.shader_stack@.take(n as int) =~= self.shader_stack@);
        true
    }

    /// Runs the active shaders, in stack order, on the pixel (x, y) of color `color` and
    /// returns the pixel that results.
    pub fn run_pixel_in_shaders(&mut self, x: i32, y: i32, color: Color, params: ShaderParams) -> (out: (i32, i32, Color))
        requires
            shade_through_ok(old(self).shader_stack@, old(self).color@, old(self).width, (x, y, color)),
        ensures
            *final(self) == *old(self),
            out == shade_through(old(self).shader_stack@, old(self).color@, old(self).width, (x, y, color)),
    {
        let mut params = params;
        params.x = x;
        params.y = y;
        params.color = color;

        let mut results: (i32, i32, Color) = (x, y, color);
        let n: usize = self.shader_stack.len();
        let mut shader_idx: usize = 0;
        while shader_idx < n
            invariant
                *self == *old(self),
                n == self.shader_stack@.len(),
                shader_idx <= n,
                shade_through_ok(self.shader_stack@, self.color@, self.width, (x, y, color)),
                results == shade_through(self.shader_stack@.take(shader_idx as int), self.color@, self.width, (x, y, color)),
                params.x == results.0,
                params.y == results.1,
                params.color == results.2,
            decreases n - shader_idx,
        {
            proof {
                lemma_shade_through_ok_take(self.shader_stack@, self.color@, self.width, (x, y, color), shader_idx + 1);
                assert(self.shader_stack@.take(shader_idx + 1).drop_last() =~= self.shader_stack@.take(shader_idx as int));
            }
            let bs: BufferShader = self.shader_stack[shader_idx];
            if bs.active {
                if let Some(new_results) = bs.shader.shade(self.color.as_slice(), self.width, self.height, params) {
                    results = new_results;
                    params.x = results.0;
                    params.y = results.1;
                    params.color = results.2;
                }
            }
            shader_idx = shader_idx + 1;
        }
        assert(self.shader_stack@.take(n as int) =~= self.shader_stack@);
        results
    }
}

/// The pixel (x, y) of a `width` by `height` buffer: its index and the three bytes after
/// it lie inside the buffer.
pub proof fn lemma_index_in_bounds(width: int, height: int, x: int, y: int)
    requires
        0 <= x < width,
        0 <= y < height,
    ensures
        0 <= (y * width + x) * 4,
        (y * width + x) * 4 + 3 < width * height * 4,
        y * width + x < width * height,
{
    assert(y * width + x < width * height) by (nonlinear_arith)
        requires
            0 <= x < width,
            0 <= y < height,
    ;
    assert(0 <= y * width) by (nonlinear_arith)
        requires
            0 <= y,
            0 <= width,
    ;
}

/// `x.rem_euclid(m)` for a positive modulus.
pub fn rem_euclid_i32(x: i32, m: i32) -> (r: i32)
    requires
        m > 0,
    ensures
        r == x as int % m as int,
        0 <= r < m,
{
    if x >= 0 {
        ((x as u32) % (m as u32)) as i32
    } else {
        let neg: u32 = if x == i32::MIN {
            2147483648u32
        } else {
            (-x) as u32
        };
        let k: u32 = neg % (m as u32);
        proof {
            lemma_neg_mod(neg as int, m as int, k as int);
        }
        if k == 0 {
            0
        } else {
            m - k as i32
        }
    }
}

/// The Euclidean remainder of a negative number from that of its magnitude.
pub proof fn lemma_neg_mod(n: int, m: int, k: int)
    requires
        n > 0,
        m > 0,
        k == n % m,
    ensures
        k == 0 ==> (-n) % m == 0,
        k != 0 ==> (-n) % m == m - k,
{
    vstd::arithmetic::div_mod::lemma_fundamental_div_mod(n, m);
    let q = n / m;
    if k == 0 {
        assert(-n == m * (-q)) by (nonlinear_arith)
            requires
                n == m * q + k,
                k == 0,
        ;
        vstd::arithmetic::div_mod::lemma_mod_multiples_basic(-q, m);
        assert((-q) * m == m * (-q)) by (nonlinear_arith);
    } else {
        assert(-n == m * (-q - 1) + (m - k)) by (nonlinear_arith)
            requires
                n == m * q + k,
        ;
        vstd::arithmetic::div_mod::lemma_mod_multiples_vanish(-q - 1, m - k, m);
        vstd::arithmetic::div_mod::lemma_small_mod((m - k) as nat, m as nat);
        assert(m * (-q - 1) == (-q - 1) * m) by (nonlinear_arith);
    }
}

} // verus!

verus! {

/// Two pixels of a `width`-wide buffer have the same index only if they are the same pixel.
pub proof fn lemma_index_injective(width: int, x1: int, y1: int, x2: int, y2: int)
    requires
        0 <= x1 < width,
        0 <= x2 < width,
        0 <= y1,
        0 <= y2,
        y1 * width + x1 == y2 * width + x2,
    ensures
        x1 == x2,
        y1 == y2,
{
    if y1 < y2 {
        assert(y1 * width + x1 < y2 * width + x2) by (nonlinear_arith)
            requires
                y1 < y2,
                0 <= x1 < width,
                0 <= x2,
        ;
    } else if y2 < y1 {
        assert(y2 * width + x2 < y1 * width + x1) by (nonlinear_arith)
            requires
                y2 < y1,
                0 <= x2 < width,
                0 <= x1,
        ;
    }
}

/// The color of the pixel (x, y) of a `width`-wide buffer.
pub open spec fn pixel_at(pix: Seq<u8>, width: int, x: int, y: int) -> Color {
    read_pixel(pix, (y * width + x) * 4)
}

/// The color of pixel number `p` of a byte buffer (four bytes per pixel).
pub open spec fn pixel(pix: Seq<u8>, p: int) -> Color {
    read_pixel(pix, 4 * p)
}

/// Storing pixel number `i` changes that pixel and no other.
pub proof fn lemma_pixel_write(pix: Seq<u8>, i: int, c: Color)
    requires
        0 <= i,
        4 * i + 3 < pix.len(),
    ensures
        write_pixel(pix, 4 * i, c).len() == pix.len(),
        forall|p: int|
            0 <= p && 4 * p + 3 < pix.len() ==> #[trigger] pixel(write_pixel(pix, 4 * i, c), p) == if p == i {
                c
            } else {
                pixel(pix, p)
            },
{
}

/// Reads the color stored at pixel number `p` of a byte buffer.
pub fn get_px(v: &Vec<u8>, p: usize) -> (c: Color)
    requires
        4 * p + 3 < v@.len(),
    ensures
        c == pixel(v@, p as int),
{
    let n: usize = v.len();
    let i: usize = 4 * p;
    Color::new(v[i], v[i + 1], v[i + 2], v[i + 3])
}

/// Stores a color at pixel number `p` of a byte buffer.
pub fn set_px(v: &mut Vec<u8>, p: usize, c: Color)
    requires
        4 * p + 3 < old(v)@.len(),
    ensures
        final(v)@ == write_pixel(old(v)@, 4 * p, c),
{
    let n: usize = v.len();
    let i: usize = 4 * p;
    v.set(i, c.r);
    v.set(i + 1, c.g);
    v.set(i + 2, c.b);
    v.set(i + 3, c.a);
}

} // verus!
