//! A heap-allocated framebuffer: a plain pixel buffer that can be copied into images and
//! into other framebuffers.
use vstd::prelude::*;
use crate::color::Color;
use crate::image::Image;
use crate::buffer::{pixel, pixel_at, get_px, set_px, write_pixel, lemma_pixel_write, lemma_index_in_bounds, lemma_index_injective};

verus! {

/// Heap-Allocated Framebuffer.
#[derive(Debug, Clone)]
pub struct FrameBuffer {
    pub width: usize,
    pub height: usize,
    pub color: Vec<u8>,
}

/// `blit_framebuffer` copies nothing: the source does not fit inside the target at the
/// offset.
pub open spec fn fb_blit_refused(dst: FrameBuffer, src: FrameBuffer, ox: int, oy: int) -> bool {
    ox + src.width > dst.width || oy + src.height > dst.height
}

/// The pixel (px, py) of `dst` after `blit_framebuffer` of `src` at (ox, oy): inside the
/// rectangle the source covers at the offset, the source's pixel; elsewhere, and when the
/// source does not fit, the target's pixel as it was.
pub open spec fn fb_blit_pixel(dst: FrameBuffer, src: FrameBuffer, ox: int, oy: int, px: int, py: int) -> Color {
    if !fb_blit_refused(dst, src, ox, oy) && oy <= py < oy + src.height && ox <= px < ox + src.width {
        pixel_at(src.color@, src.width as int, px - ox, py - oy)
    } else {
        pixel_at(dst.color@, dst.width as int, px, py)
    }
}

impl FrameBuffer {
    /// The framebuffer holds exactly `width * height` pixels.
    pub open spec fn wf(self) -> bool {
        self.color@.len() == self.width * self.height * 4
    }

    /// Creates a new framebuffer, all pixels transparent black.
    pub fn new(width: usize, height: usize) -> (fb: FrameBuffer)
        requires
            width * height * 4 <= usize::MAX,
        ensures
            fb.wf(),
            fb.width == width,
            fb.height == height,
            fb.color@ == Seq::new((width * height * 4) as nat, |i: int| 0u8),
    {
        let n: usize = width * height * 4;
        let color: Vec<u8> = vec![0; n];
        assert(color@ =~= Seq::new((width * height * 4) as nat, |i: int| 0u8));
        FrameBuffer { width, height, color }
    }

    /// Takes the framebuffer and saves it to an image. Good for one time captures.
    pub fn to_image(&self) -> (img: Image)
        ensures
            img.buffer@ == self.color@,
            img.width == self.width,
            img.height == self.height,
            !img.is_error,
    {
        Image { buffer: self.color.clone(), width: self.width, height: self.height, is_error: false }
    }

    /// Copies the framebuffer into an image buffer if they are the same size; a buffer of
    /// another size is left as it was. Good for dynamic images that change frequently.
    pub fn to_image_buffer(&self, buffer: &mut Vec<u8>)
        ensures
            old(buffer)@.len() == self.color@.len() ==> final(buffer)@ == self.color@,
            old(buffer)@.len() != self.color@.len() ==> final(buffer)@ == old(buffer)@,
    {
        if self.color.len() == buffer.len() {
            let n: usize = buffer.len();
            let mut i: usize = 0;
            while i < n
                invariant
                    n == self.color@.len(),
                    buffer@.len() == n,
                    i <= n,
                    forall|k: int| 0 <= k < i ==> buffer@[k] == self.color@[k],
                decreases n - i,
            {
                buffer.set(i, self.color[i]);
                i = i + 1;
            }
            assert(buffer@ =~= self.color@);
        }
    }

    /// Copies a framebuffer directly into this one, with an offset. A source that does not
    /// fit inside this framebuffer at the offset is not drawn.
    pub fn blit_framebuffer(&mut self, fbuf_blit: &FrameBuffer, offset_x: usize, offset_y: usize)
        requires
            old(self).wf(),
            fbuf_blit.wf(),
            offset_x + fbuf_blit.width <= usize::MAX,
            offset_y + fbuf_blit.height <= usize::MAX,
        ensures
            final(self).wf(),
            final(self).width == old(self).width,
            final(self).height == old(self).height,
            fb_blit_refused(*old(self), *fbuf_blit, offset_x as int, offset_y as int) ==> final(self).color@ == old(self).color@,
            forall|px: int, py: int|
                0 <= px < old(self).width && 0 <= py < old(self).height ==> #[trigger] pixel_at(final(self).color@, old(self).width as int, px, py)
                    == fb_blit_pixel(*old(self), *fbuf_blit, offset_x as int, offset_y as int, px, py),
    {
        let extent_width: usize = offset_x + fbuf_blit.width;
        let extent_height: usize = offset_y + fbuf_blit.height;
        let len: usize = self.color.len();
        if extent_width > self.width || extent_height > self.height {
            return;
        }
        let ghost w: int = self.width as int;
        let ghost sw: int = fbuf_blit.width as int;
        let src_len: usize = fbuf_blit.color.len();
        let row_end: usize = extent_height;
        let col_start: usize = offset_x;
        let col_count: usize = fbuf_blit.width;
        let mut i: usize = offset_y;
        while i < row_end
            invariant
                self.wf(),
                self.width == old(self).width,
                self.height == old(self).height,
                w == self.width,
                sw == fbuf_blit.width,
                fbuf_blit.wf(),
                !fb_blit_refused(*old(self), *fbuf_blit, offset_x as int, offset_y as int),
                row_end == offset_y + fbuf_blit.height,
                col_start == offset_x,
                col_count == fbuf_blit.width,
                row_end <= self.height,
                offset_x + fbuf_blit.width <= self.width,
                offset_y <= i <= row_end,
                src_len == fbuf_blit.color@.len(),
                len == self.color@.len(),
                forall|px: int, py: int|
                    0 <= px < w && 0 <= py < old(self).height ==> #[trigger] pixel_at(self.color@, w, px, py) == if py < i {
                        fb_blit_pixel(*old(self), *fbuf_blit, offset_x as int, offset_y as int, px, py)
                    } else {
                        pixel_at(old(self).color@, w, px, py)
                    },
            decreases row_end - i,
        {
            let mut c: usize = 0;
            while c < col_count
                invariant
                    self.wf(),
                    self.width == old(self).width,
                    self.height == old(self).height,
                    w == self.width,
                    sw == fbuf_blit.width,
                    fbuf_blit.wf(),
                    !fb_blit_refused(*old(self), *fbuf_blit, offset_x as int, offset_y as int),
                    row_end == offset_y + fbuf_blit.height,
                    col_start == offset_x,
                    col_count == fbuf_blit.width,
                    offset_x + fbuf_blit.width <= self.width,
                    offset_y <= i < row_end,
                    row_end <= self.height,
                    c <= col_count,
                    src_len == fbuf_blit.color@.len(),
                    len == self.color@.len(),
                    forall|px: int, py: int|
                        0 <= px < w && 0 <= py < old(self).height ==> #[trigger] pixel_at(self.color@, w, px, py) == if py < i || (
                        py == i && col_start <= px < col_start + c) {
                            fb_blit_pixel(*old(self), *fbuf_blit, offset_x as int, offset_y as int, px, py)
                        } else {
                            pixel_at(old(self).color@, w, px, py)
                        },
                decreases col_count - c,
            {
                let dx: usize = col_start + c;
                let sx: usize = c;
                let sy: usize = i - offset_y;
                proof {
                    lemma_index_in_bounds(w, self.height as int, dx as int, i as int);
                    lemma_index_in_bounds(sw, fbuf_blit.height as int, sx as int, sy as int);
                }
                let q: usize = sy * fbuf_blit.width + sx;
                let p: usize = i * self.width + dx;
                let v: Color = get_px(&fbuf_blit.color, q);
                proof {
                    lemma_pixel_write(self.color@, p as int, v);
                    assert forall|px: int, py: int|
                        0 <= px < w && 0 <= py < old(self).height implies #[trigger] pixel_at(write_pixel(self.color@, 4 * p, v), w, px, py)
                            == if px == dx && py == i {
                            v
                        } else {
                            pixel_at(self.color@, w, px, py)
                        } by {
                        lemma_index_in_bounds(w, self.height as int, px, py);
                        assert(pixel_at(write_pixel(self.color@, 4 * p, v), w, px, py) == pixel(write_pixel(self.color@, 4 * p, v), py * w + px));
                        assert(pixel_at(self.color@, w, px, py) == pixel(self.color@, py * w + px));
                        if py * w + px == p {
                            lemma_index_injective(w, px, py, dx as int, i as int);
                        }
                    }
                    assert(v == fb_blit_pixel(*old(self), *fbuf_blit, offset_x as int, offset_y as int, dx as int, i as int));
                }
                set_px(&mut self.color, p, v);
                c = c + 1;
            }
            proof {
                assert forall|px: int, py: int| 0 <= px < w && 0 <= py < old(self).height && py == i implies #[trigger] pixel_at(
                    self.color@,
                    w,
                    px,
                    py,
                ) == fb_blit_pixel(*old(self), *fbuf_blit, offset_x as int, offset_y as int, px, py) by {
                    if !(col_start <= px < col_start + col_count) {
                        assert(fb_blit_pixel(*old(self), *fbuf_blit, offset_x as int, offset_y as int, px, py) == pixel_at(old(self).color@, w, px, py));
                    }
                }
            }
            i = i + 1;
        }
        proof {
            assert forall|px: int, py: int| 0 <= px < w && 0 <= py < old(self).height && py >= i implies #[trigger] pixel_at(
                old(self).color@,
                w,
                px,
                py,
            ) == fb_blit_pixel(*old(self), *fbuf_blit, offset_x as int, offset_y as int, px, py) by {}
        }
    }
}

} // verus!
