//! An uncompressed bitmap image, four bytes per pixel.
use vstd::prelude::*;
use crate::color::Color;
use crate::buffer::{read_pixel, write_pixel, lemma_index_in_bounds};
use crate::math::fits_i32;

verus! {

/// Uncompressed bitmap image, typically loaded from PNG files.
#[derive(Debug, Clone, PartialEq, Eq)]
pub struct Image {
    pub buffer: Vec<u8>,
    pub width: usize,
    pub height: usize,
    pub is_error: bool,
}

impl Image {
    /// The byte index of the pixel (x, y).
    pub open spec fn index_of(self, x: int, y: int) -> int {
        (y * self.width + x) * 4
    }

    /// (x, y) is a pixel of the image.
    pub open spec fn in_bounds(self, x: int, y: int) -> bool {
        0 <= x < self.width && 0 <= y < self.height
    }

    /// `pset` and `pget` on (x, y) do not fail: when the image has bytes, its index
    /// arithmetic fits `i32` and the image has pixels.
    pub open spec fn access_req(self, x: int, y: int) -> bool {
        self.buffer@.len() > 0 ==> {
            &&& fits_i32(y * self.width)
            &&& fits_i32(y * self.width + x)
            &&& fits_i32((y * self.width + x) * 4)
            &&& self.width * self.height > 0
        }
    }

    /// The image holds `width * height` pixels and its coordinates fit `i32`.
    pub open spec fn wf(self) -> bool {
        &&& self.buffer@.len() == self.width * self.height * 4
        &&& self.width <= i32::MAX
        &&& self.height <= i32::MAX
    }

    /// The image that stands in for one that could not be loaded: a single white pixel
    /// with alpha 0, marked as an error.
    pub fn default() -> (img: Image)
        ensures
            img.width == 1,
            img.height == 1,
            img.is_error,
            img.buffer@ == seq![255u8, 255u8, 255u8, 0u8],
    {
        let mut img = Image { buffer: Vec::new(), width: 1, height: 1, is_error: true };
        img.buffer.push(255);
        img.buffer.push(255);
        img.buffer.push(255);
        img.buffer.push(0);
        assert(img.buffer@ =~= seq![255u8, 255u8, 255u8, 0u8]);
        img
    }

    /// A blank image of the given size: every byte 0.
    pub fn new_with_size(width: usize, height: usize) -> (img: Image)
        requires
            width * height * 4 <= usize::MAX,
        ensures
            img.width == width,
            img.height == height,
            !img.is_error,
            img.buffer@ == Seq::new((width * height * 4) as nat, |i: int| 0u8),
    {
        let n: usize = width * height * 4;
        let buffer: Vec<u8> = vec![0; n];
        assert(buffer@ =~= Seq::new((width * height * 4) as nat, |i: int| 0u8));
        Image { buffer, width, height, is_error: false }
    }

    /// Changes a pixel color in the image. Pixels outside the image, and images without
    /// bytes, are left alone.
    pub fn pset(&mut self, x: i32, y: i32, color: Color)
        requires
            old(self).wf(),
            old(self).access_req(x as int, y as int),
        ensures
            final(self).width == old(self).width,
            final(self).height == old(self).height,
            final(self).is_error == old(self).is_error,
            final(self).buffer@ == if old(self).buffer@.len() > 0 && old(self).in_bounds(x as int, y as int) {
                write_pixel(old(self).buffer@, old(self).index_of(x as int, y as int), color)
            } else {
                old(self).buffer@
            },
    {
        if self.buffer.len() > 0 {
            let w: i32 = self.width as i32;
            let h: i32 = self.height as i32;
            if x < 0 || x > w - 1 || y < 0 || y > h - 1 {
                return;
            }
            proof {
                lemma_index_in_bounds(self.width as int, self.height as int, x as int, y as int);
            }
            let idx: usize = (y as usize * self.width + x as usize) * 4;
            self.buffer.set(idx, color.r);
            self.buffer.set(idx + 1, color.g);
            self.buffer.set(idx + 2, color.b);
            self.buffer.set(idx + 3, color.a);
        }
    }

    /// Gets a pixel color from the image: transparent black outside it, opaque black when
    /// the image has no bytes.
    pub fn pget(&self, x: i32, y: i32) -> (c: Color)
        requires
            self.wf(),
            self.access_req(x as int, y as int),
        ensures
            c == if self.buffer@.len() == 0 {
                Color { r: 0, g: 0, b: 0, a: 255 }
            } else if self.in_bounds(x as int, y as int) {
                read_pixel(self.buffer@, self.index_of(x as int, y as int))
            } else {
                Color { r: 0, g: 0, b: 0, a: 0 }
            },
    {
        if self.buffer.len() > 0 {
            let w: i32 = self.width as i32;
            let h: i32 = self.height as i32;
            if x < 0 || x > w - 1 || y < 0 || y > h - 1 {
                return Color::clear();
            }
            proof {
                lemma_index_in_bounds(self.width as int, self.height as int, x as int, y as int);
            }
            let idx: usize = (y as usize * self.width + x as usize) * 4;
            Color::new(self.buffer[idx], self.buffer[idx + 1], self.buffer[idx + 2], self.buffer[idx + 3])
        } else {
            Color::black()
        }
    }
}

} // verus!
