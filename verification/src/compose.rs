//! Operations on whole buffers: tinting, compositing one buffer over another, and
//! copying one buffer into another.
use vstd::prelude::*;
use crate::color::{Color, mul_spec, blend_spec, blend_defined};
use crate::buffer::{Buffer, pixel, pixel_at, get_px, set_px, write_pixel, lemma_pixel_write, lemma_index_in_bounds, lemma_index_injective};

verus! {

/// How a source pixel is composited onto a destination pixel.
pub enum Composite {
    /// The source replaces the destination where it is fully opaque.
    Opaque,
    /// The destination is blended over the source with the given opacity.
    Alpha(u8),
    /// The destination blended over the source is multiplied with the source.
    Multiply,
}

/// The destination pixel after compositing `src` onto `dst`.
pub open spec fn composite_spec(op: Composite, dst: Color, src: Color) -> Color {
    match op {
        Composite::Opaque => if src.a >= 255 {
            Color { r: src.r, g: src.g, b: src.b, a: 255 }
        } else {
            dst
        },
        Composite::Alpha(opacity) => blend_spec(dst, src, (255 - opacity) as u8),
        Composite::Multiply => mul_spec(blend_spec(dst, src, 255), src),
    }
}

/// Compositing `src` onto `dst` does not fail.
pub open spec fn composite_req(op: Composite, dst: Color, src: Color) -> bool {
    match op {
        Composite::Alpha(opacity) => blend_defined(dst, (255 - opacity) as u8),
        _ => true,
    }
}

/// Composites one pixel.
fn composite_px(op: &Composite, dst: Color, src: Color) -> (c: Color)
    requires
        composite_req(*op, dst, src),
    ensures
        c == composite_spec(*op, dst, src),
{
    match op {
        Composite::Opaque => {
            if src.a >= 255 {
                Color::new(src.r, src.g, src.b, 255)
            } else {
                dst
            }
        },
        Composite::Alpha(opacity) => Color::blend_fast(dst, src, 255 - *opacity),
        Composite::Multiply => Color::blend_fast(dst, src, 255) * src,
    }
}

/// `src` placed with its top-left corner at (x, y) lies inside `dst`.
pub open spec fn blit_fits(dst: Buffer, src: Buffer, x: int, y: int) -> bool {
    &&& 0 <= x
    &&& 0 <= y
    &&& x + src.width <= dst.width
    &&& y + src.height <= dst.height
}

/// The pixel (px, py) of `dst` after `src` is copied into it at (x, y).
pub open spec fn blit_pixel(dst: Buffer, src: Buffer, x: int, y: int, px: int, py: int) -> Color {
    if x <= px < x + src.width && y <= py < y + src.height {
        pixel_at(src.color@, src.width as int, px - x, py - y)
    } else {
        pixel_at(dst.color@, dst.width as int, px, py)
    }
}

/// `src` placed at (x, y) lies inside a `dw` by `dh` buffer.
pub open spec fn blit_fits_dims(dw: int, dh: int, src: Buffer, x: int, y: int) -> bool {
    &&& 0 <= x
    &&& 0 <= y
    &&& x + src.width <= dw
    &&& y + src.height <= dh
}

/// The bytes `dpix` of a `dw` by `dh` buffer after `src` is copied into it at (x, y) by
/// `blit`.
pub open spec fn blit_bytes_pix(dpix: Seq<u8>, dw: int, dh: int, src: Buffer, x: int, y: int) -> Seq<u8> {
    if !blit_fits_dims(dw, dh, src, x, y) {
        dpix
    } else if dw == src.width && dh == src.height {
        src.color@
    } else {
        blit_copy_spec(dpix, dw, src.color@, src.width as int, src.height as int, x, y)
    }
}

/// The bytes `dpix` of a buffer `dw` pixels wide after the `sw` by `sh` pixels `spix` are
/// copied into it with their top-left corner at (x, y).
pub open spec fn blit_copy_spec(dpix: Seq<u8>, dw: int, spix: Seq<u8>, sw: int, sh: int, x: int, y: int) -> Seq<u8> {
    Seq::new(
        dpix.len(),
        |k: int|
            {
                let p = k / 4;
                let px = p % dw;
                let py = p / dw;
                if x <= px < x + sw && y <= py < y + sh {
                    spix[((py - y) * sw + (px - x)) * 4 + k % 4]
                } else {
                    dpix[k]
                }
            },
    )
}

/// The pixel (px, py) of a copy made by `blit_copy_spec`: the source pixel inside the
/// copied rectangle, the destination pixel elsewhere.
pub proof fn lemma_blit_copy_pixel(dpix: Seq<u8>, dw: int, dh: int, spix: Seq<u8>, sw: int, sh: int, x: int, y: int, px: int, py: int)
    requires
        dpix.len() == dw * dh * 4,
        spix.len() == sw * sh * 4,
        0 <= x,
        0 <= y,
        x + sw <= dw,
        y + sh <= dh,
        0 <= px < dw,
        0 <= py < dh,
    ensures
        blit_copy_spec(dpix, dw, spix, sw, sh, x, y).len() == dpix.len(),
        pixel_at(blit_copy_spec(dpix, dw, spix, sw, sh, x, y), dw, px, py) == if x <= px < x + sw && y <= py < y + sh {
            pixel_at(spix, sw, px - x, py - y)
        } else {
            pixel_at(dpix, dw, px, py)
        },
{
    let out = blit_copy_spec(dpix, dw, spix, sw, sh, x, y);
    let p = py * dw + px;
    lemma_index_in_bounds(dw, dh, px, py);
    vstd::arithmetic::div_mod::lemma_fundamental_div_mod_converse_div(p, dw, py, px);
    vstd::arithmetic::div_mod::lemma_fundamental_div_mod_converse_mod(p, dw, py, px);
    if x <= px < x + sw && y <= py < y + sh {
        lemma_index_in_bounds(sw, sh, px - x, py - y);
    }
    assert forall|ch: int| 0 <= ch < 4 implies #[trigger] out[p * 4 + ch] == if x <= px < x + sw && y <= py < y + sh {
        spix[((py - y) * sw + (px - x)) * 4 + ch]
    } else {
        dpix[p * 4 + ch]
    } by {
        vstd::arithmetic::div_mod::lemma_fundamental_div_mod_converse_div(p * 4 + ch, 4, p, ch);
        vstd::arithmetic::div_mod::lemma_fundamental_div_mod_converse_mod(p * 4 + ch, 4, p, ch);
    }
    assert(out[p * 4 + 0] == out[p * 4]);
}

/// The pixel (px, py) of a buffer after `src` is copied into it at (x, y) by `blit`.
pub proof fn lemma_blit_bytes_pixel(dpix: Seq<u8>, dw: int, dh: int, src: Buffer, x: int, y: int, px: int, py: int)
    requires
        dpix.len() == dw * dh * 4,
        src.wf(),
        0 <= px < dw,
        0 <= py < dh,
    ensures
        blit_bytes_pix(dpix, dw, dh, src, x, y).len() == dpix.len(),
        pixel_at(blit_bytes_pix(dpix, dw, dh, src, x, y), dw, px, py) == if blit_fits_dims(dw, dh, src, x, y) && x <= px < x
            + src.width && y <= py < y + src.height {
            pixel_at(src.color@, src.width as int, px - x, py - y)
        } else {
            pixel_at(dpix, dw, px, py)
        },
{
    if !(dw == src.width && dh == src.height) && blit_fits_dims(dw, dh, src, x, y) {
        lemma_blit_copy_pixel(dpix, dw, dh, src.color@, src.width as int, src.height as int, x, y, px, py);
    }
}

/// Copies the `sw` by `sh` pixels `src` into the `dw` by `dh` pixels `dst` with their
/// top-left corner at (x, y), where they fit.
pub fn copy_rect(dst: &mut Vec<u8>, dw: usize, dh: usize, src: &Vec<u8>, sw: usize, sh: usize, x: usize, y: usize)
    requires
        old(dst)@.len() == dw * dh * 4,
        src@.len() == sw * sh * 4,
        x + sw <= dw,
        y + sh <= dh,
    ensures
        final(dst)@.len() == old(dst)@.len(),
        forall|px: int, py: int|
            0 <= px < dw && 0 <= py < dh ==> #[trigger] pixel_at(final(dst)@, dw as int, px, py) == if x <= px < x + sw && y <= py < y
                + sh {
                pixel_at(src@, sw as int, px - x, py - y)
            } else {
                pixel_at(old(dst)@, dw as int, px, py)
            },
        final(dst)@ == blit_copy_spec(old(dst)@, dw as int, src@, sw as int, sh as int, x as int, y as int),
{
    let ghost w: int = dw as int;
    let ghost ssw: int = sw as int;
    let mut sy: usize = 0;
    while sy < sh
        invariant
            dst@.len() == dw * dh * 4,
            w == dw,
            ssw == sw,
            src@.len() == sw * sh * 4,
            x + sw <= dw,
            y + sh <= dh,
            sy <= sh,
            forall|px: int, py: int|
                0 <= px < w && 0 <= py < dh ==> #[trigger] pixel_at(dst@, w, px, py) == if x <= px < x + ssw && y <= py < y + sy {
                    pixel_at(src@, ssw, px - x, py - y)
                } else {
                    pixel_at(old(dst)@, w, px, py)
                },
        decreases sh - sy,
    {
        let mut sx: usize = 0;
        while sx < sw
            invariant
                dst@.len() == dw * dh * 4,
                w == dw,
                ssw == sw,
                src@.len() == sw * sh * 4,
                x + sw <= dw,
                y + sh <= dh,
                sy < sh,
                sx <= sw,
                forall|px: int, py: int|
                    0 <= px < w && 0 <= py < dh ==> #[trigger] pixel_at(dst@, w, px, py) == if x <= px < x + ssw && y <= py < y + sy || (
                    py == y + sy && x <= px < x + sx) {
                        pixel_at(src@, ssw, px - x, py - y)
                    } else {
                        pixel_at(old(dst)@, w, px, py)
                    },
            decreases sw - sx,
        {
            let dx: usize = x + sx;
            let dy: usize = y + sy;
            proof {
                lemma_index_in_bounds(w, dh as int, dx as int, dy as int);
                lemma_index_in_bounds(ssw, sh as int, sx as int, sy as int);
            }
            let src_len: usize = src.len();
            let dst_len: usize = dst.len();
            let q: usize = sy * sw + sx;
            let p: usize = dy * dw + dx;
            let c: Color = get_px(src, q);
            proof {
                lemma_pixel_write(dst@, p as int, c);
                assert forall|px: int, py: int|
                    0 <= px < w && 0 <= py < dh implies #[trigger] pixel_at(write_pixel(dst@, 4 * p, c), w, px, py) == if px == dx
                        && py == dy {
                        c
                    } else {
                        pixel_at(dst@, w, px, py)
                    } by {
                    lemma_index_in_bounds(w, dh as int, px, py);
                    assert(pixel_at(write_pixel(dst@, 4 * p, c), w, px, py) == pixel(write_pixel(dst@, 4 * p, c), py * w + px));
                    assert(pixel_at(dst@, w, px, py) == pixel(dst@, py * w + px));
                    if py * w + px == p {
                        lemma_index_injective(w, px, py, dx as int, dy as int);
                    }
                }
                assert(c == pixel_at(src@, ssw, dx - x, dy - y));
            }
            set_px(dst, p, c);
            sx = sx + 1;
        }
        sy = sy + 1;
    }
    proof {
        let bb = blit_copy_spec(old(dst)@, w, src@, ssw, sh as int, x as int, y as int);
        if w > 0 {
            assert forall|k: int| 0 <= k < dst@.len() implies #[trigger] dst@[k] == bb[k] by {
                lemma_byte_decompose(w, dh as int, k);
                let px = (k / 4) % w;
                let py = (k / 4) / w;
                assert(pixel_at(dst@, w, px, py) == (if x <= px < x + ssw && y <= py < y + sh {
                    pixel_at(src@, ssw, px - x, py - y)
                } else {
                    pixel_at(old(dst)@, w, px, py)
                }));
                if x <= px < x + ssw && y <= py < y + sh {
                    lemma_index_in_bounds(ssw, sh as int, px - x, py - y);
                }
            }
        }
        assert(dst@ =~= bb);
    }
}

/// The bytes of `dst` after `src` is copied into it at (x, y) by `blit`.
pub open spec fn blit_bytes(dst: Buffer, src: Buffer, x: int, y: int) -> Seq<u8> {
    blit_bytes_pix(dst.color@, dst.width as int, dst.height as int, src, x, y)
}

/// Byte `k` of a `width` by `height` pixel buffer is channel `k % 4` of the pixel
/// (px, py) with `px = (k / 4) % width` and `py = (k / 4) / width`.
pub proof fn lemma_byte_decompose(width: int, height: int, k: int)
    requires
        width > 0,
        0 <= k < width * height * 4,
    ensures
        0 <= (k / 4) % width < width,
        0 <= (k / 4) / width < height,
        k == ((k / 4) / width * width + (k / 4) % width) * 4 + k % 4,
{
    let p = k / 4;
    vstd::arithmetic::div_mod::lemma_fundamental_div_mod(p, width);
    let px = p % width;
    let py = p / width;
    assert(p == width * py + px);
    assert(py * width == width * py) by (nonlinear_arith);
    assert(p < width * height);
    assert(py < height) by (nonlinear_arith)
        requires
            p == py * width + px,
            0 <= px,
            p < width * height,
            width > 0,
    ;
    assert(0 <= py) by (nonlinear_arith)
        requires
            p == py * width + px,
            px < width,
            p >= 0,
            width > 0,
    ;
}

impl Buffer {
    /// Composites every pixel of `src` onto the pixel at the same place, when both
    /// buffers hold the same number of bytes; does nothing otherwise.
    fn composite(&mut self, src: &Buffer, op: Composite)
        requires
            old(self).wf(),
            old(self).color@.len() == src.color@.len() ==> forall|p: int|
                0 <= p < old(self).color@.len() / 4 ==> composite_req(op, #[trigger] pixel(old(self).color@, p), pixel(src.color@, p)),
        ensures
            final(self).wf(),
            final(self).same_setup(*old(self)),
            final(self).color@.len() == old(self).color@.len(),
            old(self).color@.len() != src.color@.len() ==> final(self).color@ == old(self).color@,
            old(self).color@.len() == src.color@.len() ==> forall|p: int|
                0 <= p < old(self).color@.len() / 4 ==> #[trigger] pixel(final(self).color@, p) == composite_spec(
                    op,
                    pixel(old(self).color@, p),
                    pixel(src.color@, p),
                ),
    {
        if self.color.len() != src.color.len() {
            return;
        }
        let n: usize = self.color.len() / 4;
        let mut i: usize = 0;
        while i < n
            invariant
                self.wf(),
                self.same_setup(*old(self)),
                self.color@.len() == old(self).color@.len(),
                self.color@.len() == src.color@.len(),
                n == old(self).color@.len() / 4,
                old(self).color@.len() % 4 == 0,
                i <= n,
                forall|p: int|
                    0 <= p < n ==> composite_req(op, #[trigger] pixel(old(self).color@, p), pixel(src.color@, p)),
                forall|p: int|
                    0 <= p < i ==> #[trigger] pixel(self.color@, p) == composite_spec(op, pixel(old(self).color@, p), pixel(src.color@, p)),
                forall|p: int| i <= p < n ==> #[trigger] pixel(self.color@, p) == pixel(old(self).color@, p),
            decreases n - i,
        {
            let dst: Color = get_px(&self.color, i);
            let s: Color = get_px(&src.color, i);
            assert(pixel(old(self).color@, i as int) == dst);
            let c = composite_px(&op, dst, s);
            proof {
                lemma_pixel_write(self.color@, i as int, c);
            }
            set_px(&mut self.color, i, c);
            i = i + 1;
        }
    }

    /// Draws the fully opaque pixels of `buffer` over this buffer.
    pub fn pcomposite_opaque(&mut self, buffer: &Buffer)
        requires
            old(self).wf(),
        ensures
            final(self).wf(),
            final(self).same_setup(*old(self)),
            final(self).color@.len() == old(self).color@.len(),
            old(self).color@.len() != buffer.color@.len() ==> final(self).color@ == old(self).color@,
            old(self).color@.len() == buffer.color@.len() ==> forall|p: int|
                0 <= p < old(self).color@.len() / 4 ==> #[trigger] pixel(final(self).color@, p) == composite_spec(
                    Composite::Opaque,
                    pixel(old(self).color@, p),
                    pixel(buffer.color@, p),
                ),
    {
        self.composite(buffer, Composite::Opaque);
    }

    /// Blends this buffer over `buffer` with the opacity `255 - opacity`, pixel by pixel.
    pub fn pcomposite_alpha(&mut self, buffer: &Buffer, opacity: u8)
        requires
            old(self).wf(),
            old(self).color@.len() == buffer.color@.len() ==> forall|p: int|
                0 <= p < old(self).color@.len() / 4 ==> (#[trigger] pixel(old(self).color@, p)).a >= opacity,
        ensures
            final(self).wf(),
            final(self).same_setup(*old(self)),
            final(self).color@.len() == old(self).color@.len(),
            old(self).color@.len() != buffer.color@.len() ==> final(self).color@ == old(self).color@,
            old(self).color@.len() == buffer.color@.len() ==> forall|p: int|
                0 <= p < old(self).color@.len() / 4 ==> #[trigger] pixel(final(self).color@, p) == composite_spec(
                    Composite::Alpha(opacity),
                    pixel(old(self).color@, p),
                    pixel(buffer.color@, p),
                ),
    {
        self.composite(buffer, Composite::Alpha(opacity));
    }

    /// Blends this buffer over `buffer` and multiplies the result with `buffer`, pixel by
    /// pixel.
    pub fn pcomposite_multiply(&mut self, buffer: &Buffer)
        requires
            old(self).wf(),
        ensures
            final(self).wf(),
            final(self).same_setup(*old(self)),
            final(self).color@.len() == old(self).color@.len(),
            old(self).color@.len() != buffer.color@.len() ==> final(self).color@ == old(self).color@,
            old(self).color@.len() == buffer.color@.len() ==> forall|p: int|
                0 <= p < old(self).color@.len() / 4 ==> #[trigger] pixel(final(self).color@, p) == composite_spec(
                    Composite::Multiply,
                    pixel(old(self).color@, p),
                    pixel(buffer.color@, p),
                ),
    {
        self.composite(buffer, Composite::Multiply);
    }

    /// Copies `src` into this buffer with its top-left corner at (x, y). A source that does
    /// not fit inside this buffer at (x, y) is not drawn; one of the same size fits only at
    /// (0, 0), where it is copied whole.
    pub fn blit(&mut self, src: &Buffer, x: i32, y: i32)
        requires
            old(self).wf(),
            src.wf(),
            !(old(self).width == src.width && old(self).height == src.height) && blit_fits(*old(self), *src, x as int, y as int)
                ==> src.width > 0,
        ensures
            final(self).wf(),
            final(self).same_setup(*old(self)),
            !blit_fits(*old(self), *src, x as int, y as int) ==> final(self).color@ == old(self).color@,
            blit_fits(*old(self), *src, x as int, y as int) ==> forall|px: int, py: int|
                0 <= px < old(self).width && 0 <= py < old(self).height ==> #[trigger] pixel_at(final(self).color@, old(self).width as int, px, py)
                    == blit_pixel(*old(self), *src, x as int, y as int, px, py),
            final(self).color@ == blit_bytes(*old(self), *src, x as int, y as int),
    {
        if x < 0 || y < 0 {
            return;
        }
        let extent_width: usize = x as usize + src.width;
        let extent_height: usize = y as usize + src.height;
        if extent_width > self.width || extent_height > self.height {
            return;
        }
        if self.width == src.width && self.height == src.height {
            self.color = src.color.clone();
            assert(self.color@ =~= src.color@);
            proof {
                assert forall|px: int, py: int| 0 <= px < old(self).width && 0 <= py < old(self).height implies #[trigger] pixel_at(
                    self.color@,
                    old(self).width as int,
                    px,
                    py,
                ) == blit_pixel(*old(self), *src, x as int, y as int, px, py) by {}
            }
            return;
        }
        copy_rect(&mut self.color, self.width, self.height, &src.color, src.width, src.height, x as usize, y as usize);
    }

    /// Multiplies every pixel of the buffer with `color`; alpha is kept.
    pub fn tint_buffer(&mut self, color: Color)
        requires
            old(self).wf(),
        ensures
            final(self).wf(),
            final(self).same_setup(*old(self)),
            final(self).color@.len() == old(self).color@.len(),
            forall|p: int|
                0 <= p < old(self).color@.len() / 4 ==> #[trigger] pixel(final(self).color@, p) == mul_spec(pixel(old(self).color@, p), color),
    {
        let n: usize = self.color.len() / 4;
        let mut i: usize = 0;
        while i < n
            invariant
                self.wf(),
                self.same_setup(*old(self)),
                self.color@.len() == old(self).color@.len(),
                n == old(self).color@.len() / 4,
                old(self).color@.len() % 4 == 0,
                i <= n,
                forall|p: int| 0 <= p < i ==> #[trigger] pixel(self.color@, p) == mul_spec(pixel(old(self).color@, p), color),
                forall|p: int| i <= p < n ==> #[trigger] pixel(self.color@, p) == pixel(old(self).color@, p),
            decreases n - i,
        {
            let c: Color = get_px(&self.color, i);
            assert(pixel(old(self).color@, i as int) == c);
            let t: Color = c * color;
            proof {
                lemma_pixel_write(self.color@, i as int, t);
            }
            set_px(&mut self.color, i, t);
            i = i + 1;
        }
    }
}

} // verus!
