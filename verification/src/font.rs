//! Bitmap fonts and drawing text with them.
use vstd::prelude::*;
use crate::buffer::{Buffer, Canvas};
use crate::math::fits_i32;
use crate::draw::{image_rect_dabs, image_rect_fits};
use crate::rasterizer::{DrawMode, PSetOp, RCanvas, Rasterizer, fits_i64, rimg_rect_box, rimg_rect_cell, rimg_rect_dabs, rimg_rect_fill, rimg_rect_fits, rimg_sized};

verus! {

/// Bitmap font for drawing simple text. To be used with the buffer's `pprint` function.
/// All bitmap fonts need a glyph index that's in order of left-to-right, top-to-bottom of
/// the glyphs used in the font image. The glyph index is used as a lookup table to find
/// the corresponding glyph subimage.
///
/// For example, a simple five glyph image in the order of 'N', 'O', 'W', 'A', 'Y' must
/// have a glyphidx of "NOWAY" for it to print your text correctly.
///
/// The glyph width and height tells the font how big the sections are for the glyphs in
/// the image.
pub struct Font {
    pub glyphidx: Vec<char>,
    pub glyphidx_sizes: Vec<FontGlyph>,
    pub fontimg: Buffer,
    pub glyph_width: usize,
    pub glyph_height: usize,
    pub glyph_spacing: i64,
}

/// The bounding box of one glyph.
#[derive(Copy, Clone, Debug)]
pub struct FontGlyph {
    pub x: i64,
    pub y: i64,
    pub w: i64,
    pub h: i64,
}

impl FontGlyph {
    pub fn new(x: i64, y: i64, w: i64, h: i64) -> (g: FontGlyph)
        ensures
            g == (FontGlyph { x, y, w, h }),
    {
        FontGlyph { x, y, w, h }
    }
}

/// One glyph drawn by `pprint`: the arguments of its `pimgrect` call, that is the position
/// and the section (x, y, width, height) of the font image.
pub type GlyphCall = (int, int, int, int, int, int);

impl Font {
    /// The font image is well formed, and the glyph sizes, the spacing and the glyph
    /// positions fit `i32`.
    pub open spec fn wf(self) -> bool {
        &&& self.fontimg.wf()
        &&& self.glyph_width <= i32::MAX
        &&& self.glyph_height <= i32::MAX
        &&& fits_i32(self.glyph_spacing as int)
        &&& self.glyphidx@.len() <= i32::MAX
    }

    /// The `pimgrect` call that draws glyph `j` at the pen position (jx, jy) of text placed
    /// at (x, y): glyph `j` is the `j`-th cell of `glyph_width` pixels in reading order
    /// across the font image.
    pub open spec fn glyph_call(self, j: int, x: int, y: int, jx: int, jy: int) -> GlyphCall {
        let gw = self.glyph_width as int;
        let gh = self.glyph_height as int;
        let fw = self.fontimg.width as int;
        (x + jx, y + jy, (j * gw) % fw, ((j * gw) / fw) * gh, gw, gh)
    }

    /// The glyphs among the first `j` of the index that match `c`, drawn one after the
    /// other from the pen position `jx`: their calls and where the pen ends.
    pub open spec fn scan_glyphs(self, c: char, x: int, y: int, jx: int, jy: int, j: int) -> (Seq<GlyphCall>, int)
        decreases j,
    {
        if j <= 0 {
            (Seq::empty(), jx)
        } else {
            let (calls, pen) = self.scan_glyphs(c, x, y, jx, jy, j - 1);
            if self.glyphidx@[j - 1] == c {
                (calls.push(self.glyph_call(j - 1, x, y, pen, jy)), pen + self.glyph_width + self.glyph_spacing)
            } else {
                (calls, pen)
            }
        }
    }

    /// The arithmetic of `scan_glyphs` stays within `i32` and the font image is not empty
    /// where a glyph is cut from it.
    pub open spec fn scan_glyphs_ok(self, c: char, x: int, y: int, jx: int, jy: int, j: int) -> bool
        decreases j,
    {
        if j <= 0 {
            true
        } else {
            let (calls, pen) = self.scan_glyphs(c, x, y, jx, jy, j - 1);
            let gw = self.glyph_width as int;
            &&& self.scan_glyphs_ok(c, x, y, jx, jy, j - 1)
            &&& self.glyphidx@[j - 1] == c ==> {
                &&& self.fontimg.width > 0
                &&& fits_i32((j - 1) * gw)
                &&& fits_i32((((j - 1) * gw) / (self.fontimg.width as int)) * self.glyph_height)
                &&& fits_i32(x + pen)
                &&& fits_i32(y + jy)
                &&& fits_i32(gw + self.glyph_spacing)
                &&& fits_i32(pen + gw + self.glyph_spacing)
            }
        }
    }
}

/// `v as u32`: the pen position wraps around modulo 2^32.
pub open spec fn as_u32(v: int) -> int {
    v % 0x1_0000_0000int
}

/// The glyph calls of the first `i` characters of `text` printed at (x, y), and the pen
/// position after them. A newline moves the pen to the start of the next line, a space
/// moves it one glyph width; any other character draws every glyph of the index that
/// matches it. After a character the pen wraps to the next line when it is past
/// `wrap_width`.
pub open spec fn scan_text(font: Font, text: Seq<char>, x: int, y: int, newline_space: int, wrap_width: Option<u32>, i: int) -> (Seq<GlyphCall>, int, int)
    decreases i,
{
    if i <= 0 {
        (Seq::empty(), 0, 0)
    } else {
        let (calls, jx, jy) = scan_text(font, text, x, y, newline_space, wrap_width, i - 1);
        let c = text[i - 1];
        let gh = font.glyph_height as int;
        if c == '\n' {
            (calls, 0, jy + gh + newline_space)
        } else if c == ' ' {
            (calls, jx + font.glyph_width, jy)
        } else {
            let (cs, pen) = font.scan_glyphs(c, x, y, jx, jy, font.glyphidx@.len() as int);
            match wrap_width {
                Some(w) => if as_u32(pen) > w {
                    (calls + cs, 0, jy + gh + newline_space)
                } else {
                    (calls + cs, pen, jy)
                },
                None => (calls + cs, pen, jy),
            }
        }
    }
}

/// The pen arithmetic of printing the first `i` characters stays within `i32`.
pub open spec fn scan_text_ok(font: Font, text: Seq<char>, x: int, y: int, newline_space: int, wrap_width: Option<u32>, i: int) -> bool
    decreases i,
{
    if i <= 0 {
        true
    } else {
        let (calls, jx, jy) = scan_text(font, text, x, y, newline_space, wrap_width, i - 1);
        let c = text[i - 1];
        let gh = font.glyph_height as int;
        &&& scan_text_ok(font, text, x, y, newline_space, wrap_width, i - 1)
        &&& c == '\n' ==> fits_i32(gh + newline_space) && fits_i32(jy + gh + newline_space)
        &&& c == ' ' ==> fits_i32(jx + font.glyph_width)
        &&& (c != '\n' && c != ' ') ==> {
            let (cs, pen) = font.scan_glyphs(c, x, y, jx, jy, font.glyphidx@.len() as int);
            &&& font.scan_glyphs_ok(c, x, y, jx, jy, font.glyphidx@.len() as int)
            &&& (wrap_width is Some && as_u32(pen) > wrap_width->0) ==> fits_i32(gh + newline_space) && fits_i32(
                jy + gh + newline_space,
            )
        }
    }
}

/// The pixels after the glyph calls `calls` are drawn in order with `pimgrect`.
pub open spec fn print_fold(cv: Canvas, pix: Seq<u8>, img: Buffer, calls: Seq<GlyphCall>) -> Seq<u8>
    decreases calls.len(),
{
    if calls.len() == 0 {
        pix
    } else {
        let k = calls.last();
        cv.plot_seq(print_fold(cv, pix, img, calls.drop_last()), image_rect_dabs(cv, img, k.0, k.1, k.2, k.3, k.4, k.5), true)
    }
}

/// Drawing the glyph calls `calls` in order does not fail.
pub open spec fn print_fold_req(cv: Canvas, pix: Seq<u8>, img: Buffer, calls: Seq<GlyphCall>) -> bool
    decreases calls.len(),
{
    if calls.len() == 0 {
        true
    } else {
        let k = calls.last();
        let p = print_fold(cv, pix, img, calls.drop_last());
        &&& print_fold_req(cv, pix, img, calls.drop_last())
        &&& fits_i32(k.2 + k.4)
        &&& fits_i32(k.3 + k.5)
        &&& image_rect_fits(cv, img, k.0, k.1, k.2, k.3, k.4, k.5)
        &&& cv.plot_seq_req(p, image_rect_dabs(cv, img, k.0, k.1, k.2, k.3, k.4, k.5), true)
    }
}

/// A prefix of glyph calls that can be drawn can be drawn.
pub proof fn lemma_print_fold_req_prefix(cv: Canvas, pix: Seq<u8>, img: Buffer, a: Seq<GlyphCall>, b: Seq<GlyphCall>)
    requires
        print_fold_req(cv, pix, img, a + b),
    ensures
        print_fold_req(cv, pix, img, a),
    decreases b.len(),
{
    if b.len() == 0 {
        assert(a + b =~= a);
    } else {
        assert((a + b).drop_last() =~= a + b.drop_last());
        lemma_print_fold_req_prefix(cv, pix, img, a, b.drop_last());
    }
}

/// The glyph calls of a prefix of the text come first among those of a longer prefix.
pub proof fn lemma_scan_text_prefix(font: Font, text: Seq<char>, x: int, y: int, ns: int, wrap: Option<u32>, i: int, j: int)
    requires
        0 <= i <= j,
    ensures
        scan_text(font, text, x, y, ns, wrap, j).0 == scan_text(font, text, x, y, ns, wrap, i).0 + scan_text(font, text, x, y, ns, wrap, j).0.subrange(
            scan_text(font, text, x, y, ns, wrap, i).0.len() as int,
            scan_text(font, text, x, y, ns, wrap, j).0.len() as int,
        ),
        scan_text(font, text, x, y, ns, wrap, i).0.len() <= scan_text(font, text, x, y, ns, wrap, j).0.len(),
        scan_text_ok(font, text, x, y, ns, wrap, j) ==> scan_text_ok(font, text, x, y, ns, wrap, i),
    decreases j - i,
{
    let a = scan_text(font, text, x, y, ns, wrap, i).0;
    let c = scan_text(font, text, x, y, ns, wrap, j).0;
    if i == j {
        assert(c =~= a + c.subrange(a.len() as int, c.len() as int));
    } else {
        lemma_scan_text_prefix(font, text, x, y, ns, wrap, i, j - 1);
        let b = scan_text(font, text, x, y, ns, wrap, j - 1).0;
        assert(c =~= a + c.subrange(a.len() as int, c.len() as int));
    }
}

/// The glyph calls of the first `j` glyphs of the index come first among those of the
/// first `k`, and what can be computed for `k` glyphs can be for `j`.
pub proof fn lemma_scan_glyphs_prefix(font: Font, c: char, x: int, y: int, jx: int, jy: int, j: int, k: int)
    requires
        0 <= j <= k,
    ensures
        font.scan_glyphs(c, x, y, jx, jy, k).0 == font.scan_glyphs(c, x, y, jx, jy, j).0 + font.scan_glyphs(c, x, y, jx, jy, k).0.subrange(
            font.scan_glyphs(c, x, y, jx, jy, j).0.len() as int,
            font.scan_glyphs(c, x, y, jx, jy, k).0.len() as int,
        ),
        font.scan_glyphs(c, x, y, jx, jy, j).0.len() <= font.scan_glyphs(c, x, y, jx, jy, k).0.len(),
        font.scan_glyphs_ok(c, x, y, jx, jy, k) ==> font.scan_glyphs_ok(c, x, y, jx, jy, j),
    decreases k - j,
{
    let a = font.scan_glyphs(c, x, y, jx, jy, j).0;
    let d = font.scan_glyphs(c, x, y, jx, jy, k).0;
    if j < k {
        lemma_scan_glyphs_prefix(font, c, x, y, jx, jy, j, k - 1);
    }
    assert(d =~= a + d.subrange(a.len() as int, d.len() as int));
}

/// `v as u32` is `as_u32(v)`.
pub proof fn lemma_as_u32(v: i32)
    ensures
        (v as u32) as int == as_u32(v as int),
{
    if v >= 0 {
        assert(v >= 0 ==> (v as u32) as int == v as int) by (bit_vector);
    } else {
        assert(v < 0 ==> (v as u32) as int == v as int + 0x1_0000_0000) by (bit_vector);
    }
}

/// `v as u32` is `as_u32(v)`, for an `i64` too.
pub proof fn lemma_as_u32_i64(v: i64)
    ensures
        (v as u32) as int == as_u32(v as int),
{
    let m: int = 0x1_0000_0000;
    let u: u64 = v as u64;
    assert((v as u32) as u64 == (v as u64) & 0xffff_ffff) by (bit_vector);
    assert((v as u64) & 0xffff_ffff == (v as u64) % 0x1_0000_0000) by (bit_vector);
    assert((v as u32) as int == (u as int) % m);
    if v >= 0 {
        assert(v >= 0 ==> (v as u64) as int == v as int) by (bit_vector);
    } else {
        assert(v < 0 ==> (v as u64) as int == v as int + 0x1_0000_0000_0000_0000) by (bit_vector);
        assert(u as int == v as int + m * m);
        vstd::arithmetic::div_mod::lemma_mod_multiples_vanish(m, v as int, m);
        assert((m * m + v as int) % m == (v as int) % m);
    }
}

impl Buffer {
    /// Draws text onto the screen with a bitmap font. A newline moves to the start of the
    /// next line, `newline_space` pixels below the glyphs; a space moves one glyph width to
    /// the right. Each other character draws, with `pimgrect`, every glyph of the font's
    /// index that is that character, each `glyph_spacing` pixels after the one before.
    /// Where `wrap_width` is given, the text continues on the next line once the pen has
    /// passed it (the pen position read as `u32`).
    pub fn pprint(&mut self, font: &Font, text: String, x: i32, y: i32, newline_space: i32, wrap_width: Option<u32>)
        requires
            old(self).wf(),
            font.wf(),
            scan_text_ok(*font, text@, x as int, y as int, newline_space as int, wrap_width, text@.len() as int),
            print_fold_req(old(self).canvas(), old(self).color@, font.fontimg, scan_text(*font, text@, x as int, y as int, newline_space as int, wrap_width, text@.len() as int).0),
        ensures
            final(self).wf(),
            final(self).same_setup(*old(self)),
            final(self).color@ == print_fold(old(self).canvas(), old(self).color@, font.fontimg, scan_text(*font, text@, x as int, y as int, newline_space as int, wrap_width, text@.len() as int).0),
    {
        let ghost cv: Canvas = old(self).canvas();
        let ghost pix0: Seq<u8> = old(self).color@;
        let ghost img: Buffer = font.fontimg;
        let ghost ns: int = newline_space as int;
        let mut chars: Vec<char> = Vec::new();
        for ch in it: text.as_str().chars()
            invariant
                chars@ == it.seq().take(it.index() as int),
        {
            chars.push(ch);
        }
        assert(chars@ == text@);
        let ghost t: Seq<char> = text@;
        let n: usize = chars.len();
        let glen: usize = font.glyphidx.len();
        let gw: i32 = font.glyph_width as i32;
        let gh: i32 = font.glyph_height as i32;
        let spacing: i32 = font.glyph_spacing as i32;
        let fw: usize = font.fontimg.width;
        let mut jumpx: i32 = 0;
        let mut jumpy: i32 = 0;
        let mut i: usize = 0;
        while i < n
            invariant
                self.wf(),
                self.same_setup(*old(self)),
                cv == self.canvas(),
                img == font.fontimg,
                font.wf(),
                chars@ == t,
                n == t.len(),
                glen == font.glyphidx@.len(),
                gw as int == font.glyph_width as int,
                gh as int == font.glyph_height as int,
                spacing as int == font.glyph_spacing as int,
                fw == font.fontimg.width,
                ns == newline_space as int,
                0 <= i <= n,
                jumpx as int == scan_text(*font, t, x as int, y as int, ns, wrap_width, i as int).1,
                jumpy as int == scan_text(*font, t, x as int, y as int, ns, wrap_width, i as int).2,
                self.color@ == print_fold(cv, pix0, img, scan_text(*font, t, x as int, y as int, ns, wrap_width, i as int).0),
                scan_text_ok(*font, t, x as int, y as int, ns, wrap_width, n as int),
                print_fold_req(cv, pix0, img, scan_text(*font, t, x as int, y as int, ns, wrap_width, n as int).0),
            decreases n - i,
        {
            let ghost st = scan_text(*font, t, x as int, y as int, ns, wrap_width, i as int);
            let ghost st1 = scan_text(*font, t, x as int, y as int, ns, wrap_width, i as int + 1);
            proof {
                lemma_scan_text_prefix(*font, t, x as int, y as int, ns, wrap_width, i as int + 1, n as int);
                let all = scan_text(*font, t, x as int, y as int, ns, wrap_width, n as int).0;
                lemma_print_fold_req_prefix(cv, pix0, img, st1.0, all.subrange(st1.0.len() as int, all.len() as int));
            }
            let c: char = chars[i];
            if c == '\n' {
                jumpy = jumpy + (gh + newline_space);
                jumpx = 0;
            } else if c == ' ' {
                jumpx = jumpx + gw;
            } else {
                let ghost jx0: int = jumpx as int;
                let ghost jy: int = jumpy as int;
                let ghost calls_i: Seq<GlyphCall> = st.0;
                let ghost glyphs = font.scan_glyphs(c, x as int, y as int, jx0, jy, glen as int);
                assert(st1.0 == calls_i + glyphs.0);
                let mut j: usize = 0;
                while j < glen
                    invariant
                        self.wf(),
                        self.same_setup(*old(self)),
                        cv == self.canvas(),
                        img == font.fontimg,
                        font.wf(),
                        glen == font.glyphidx@.len(),
                        gw as int == font.glyph_width as int,
                        gh as int == font.glyph_height as int,
                        spacing as int == font.glyph_spacing as int,
                        fw == font.fontimg.width,
                        jy == jumpy as int,
                        0 <= j <= glen,
                        glyphs == font.scan_glyphs(c, x as int, y as int, jx0, jy, glen as int),
                        jumpx as int == font.scan_glyphs(c, x as int, y as int, jx0, jy, j as int).1,
                        self.color@ == print_fold(cv, pix0, img, calls_i + font.scan_glyphs(c, x as int, y as int, jx0, jy, j as int).0),
                        font.scan_glyphs_ok(c, x as int, y as int, jx0, jy, glen as int),
                        print_fold_req(cv, pix0, img, calls_i + glyphs.0),
                    decreases glen - j,
                {
                    proof {
                        lemma_scan_glyphs_prefix(*font, c, x as int, y as int, jx0, jy, j as int + 1, glen as int);
                    }
                    if font.glyphidx[j] == c {
                        let ghost before = font.scan_glyphs(c, x as int, y as int, jx0, jy, j as int).0;
                        let ghost after = font.scan_glyphs(c, x as int, y as int, jx0, jy, j as int + 1).0;
                        let ghost k: GlyphCall = font.glyph_call(j as int, x as int, y as int, jumpx as int, jy);
                        proof {
                            assert(after == before.push(k));
                            assert((calls_i + after).drop_last() =~= calls_i + before);
                            assert((calls_i + after).last() == k);
                            assert(calls_i + glyphs.0 =~= (calls_i + after) + glyphs.0.subrange(after.len() as int, glyphs.0.len() as int));
                            lemma_print_fold_req_prefix(cv, pix0, img, calls_i + after, glyphs.0.subrange(after.len() as int, glyphs.0.len() as int));
                        }
                        let p: usize = j * font.glyph_width;
                        let rectx: i32 = (p % fw) as i32;
                        let recty: i32 = ((p / fw) * font.glyph_height) as i32;
                        self.pimgrect(&font.fontimg, x + jumpx, y + jumpy, rectx, recty, gw, gh);
                        jumpx = jumpx + (gw + spacing);
                    }
                    j = j + 1;
                }
                proof {
                    assert(font.scan_glyphs(c, x as int, y as int, jx0, jy, glen as int).0 == glyphs.0);
                }
                match wrap_width {
                    Some(w) => {
                        proof {
                            lemma_as_u32(jumpx);
                        }
                        if (#[verifier::truncate] (jumpx as u32)) > w {
                            jumpy = jumpy + (gh + newline_space);
                            jumpx = 0;
                        }
                    },
                    None => {},
                }
            }
            i = i + 1;
        }
        assert(t.len() == n);
    }
}

impl Font {
    /// The arithmetic of `scan_glyphs` stays within `i64` and the font image is not empty
    /// where a glyph is cut from it.
    pub open spec fn rscan_glyphs_ok(self, c: char, x: int, y: int, jx: int, jy: int, j: int) -> bool
        decreases j,
    {
        if j <= 0 {
            true
        } else {
            let (calls, pen) = self.scan_glyphs(c, x, y, jx, jy, j - 1);
            let gw = self.glyph_width as int;
            &&& self.rscan_glyphs_ok(c, x, y, jx, jy, j - 1)
            &&& self.glyphidx@[j - 1] == c ==> {
                &&& self.fontimg.width > 0
                &&& fits_i64((((j - 1) * gw) / (self.fontimg.width as int)) * self.glyph_height)
                &&& fits_i64(x + pen)
                &&& fits_i64(y + jy)
                &&& fits_i64(pen + gw + self.glyph_spacing)
            }
        }
    }
}

/// The pen arithmetic of printing the first `i` characters with a rasterizer stays within
/// `i64`.
pub open spec fn rscan_text_ok(font: Font, text: Seq<char>, x: int, y: int, newline_space: int, wrap_width: Option<u32>, i: int) -> bool
    decreases i,
{
    if i <= 0 {
        true
    } else {
        let (calls, jx, jy) = scan_text(font, text, x, y, newline_space, wrap_width, i - 1);
        let c = text[i - 1];
        let gh = font.glyph_height as int;
        &&& rscan_text_ok(font, text, x, y, newline_space, wrap_width, i - 1)
        &&& c == '\n' ==> fits_i64(gh + newline_space) && fits_i64(jy + gh + newline_space)
        &&& c == ' ' ==> fits_i64(jx + font.glyph_width)
        &&& (c != '\n' && c != ' ') ==> {
            let (cs, pen) = font.scan_glyphs(c, x, y, jx, jy, font.glyphidx@.len() as int);
            &&& font.rscan_glyphs_ok(c, x, y, jx, jy, font.glyphidx@.len() as int)
            &&& (wrap_width is Some && as_u32(pen) > wrap_width->0) ==> fits_i64(gh + newline_space) && fits_i64(
                jy + gh + newline_space,
            )
        }
    }
}

/// The font image `b` as a rasterizer image: the same size and pixels, drawn opaquely;
/// the folder it would save frames to is left open, as nothing reads it.
pub open spec fn raster_of(b: Buffer) -> Rasterizer {
    Rasterizer {
        pset_op: PSetOp::Opaque,
        render_next_frame_as_animation: false,
        render_next_frame_folder: vstd::pervasive::arbitrary(),
        offset_x: 0,
        offset_y: 0,
        width: b.width,
        height: b.height,
        color: b.color,
        draw_mode: DrawMode::Opaque,
        tint: crate::color::Color { r: 255, g: 255, b: 255, a: 255 },
        opacity: 255,
        drawn_pixels_since_clear: 0,
    }
}

/// The pixels and count of a rasterizer after the glyph calls `calls` are drawn in order
/// from the image `img` with `pimgrect`.
pub open spec fn rprint_fold(rc: RCanvas, st: (Seq<u8>, int), img: Rasterizer, calls: Seq<GlyphCall>) -> (Seq<u8>, int)
    decreases calls.len(),
{
    if calls.len() == 0 {
        st
    } else {
        let k = calls.last();
        rc.pset_seq(rprint_fold(rc, st, img, calls.drop_last()), rimg_rect_dabs(rc, img, k.0, k.1, k.2, k.3, k.4, k.5))
    }
}

/// Drawing the glyph calls `calls` in order into a rasterizer does not fail.
pub open spec fn rprint_fold_req(rc: RCanvas, st: (Seq<u8>, int), img: Rasterizer, calls: Seq<GlyphCall>) -> bool
    decreases calls.len(),
{
    if calls.len() == 0 {
        true
    } else {
        let k = calls.last();
        let p = rprint_fold(rc, st, img, calls.drop_last());
        &&& rprint_fold_req(rc, st, img, calls.drop_last())
        &&& fits_i64(k.2 + k.4)
        &&& fits_i64(k.3 + k.5)
        &&& rimg_rect_fits(rc, img, k.0, k.1, k.2, k.3, k.4, k.5)
        &&& rc.pset_seq_req(p, rimg_rect_dabs(rc, img, k.0, k.1, k.2, k.3, k.4, k.5))
    }
}

/// A prefix of glyph calls that can be drawn into a rasterizer can be drawn.
pub proof fn lemma_rprint_fold_req_prefix(rc: RCanvas, st: (Seq<u8>, int), img: Rasterizer, a: Seq<GlyphCall>, b: Seq<GlyphCall>)
    requires
        rprint_fold_req(rc, st, img, a + b),
    ensures
        rprint_fold_req(rc, st, img, a),
    decreases b.len(),
{
    if b.len() == 0 {
        assert(a + b =~= a);
    } else {
        assert((a + b).drop_last() =~= a + b.drop_last());
        lemma_rprint_fold_req_prefix(rc, st, img, a, b.drop_last());
    }
}

/// What `pimgrect` draws from an image depends only on its size and pixels.
pub proof fn lemma_rimg_rect_same_image(rc: RCanvas, a: Rasterizer, b: Rasterizer, x: int, y: int, rx: int, ry: int, rw: int, rh: int)
    requires
        a.width == b.width,
        a.height == b.height,
        a.color@ == b.color@,
    ensures
        rimg_rect_dabs(rc, a, x, y, rx, ry, rw, rh) == rimg_rect_dabs(rc, b, x, y, rx, ry, rw, rh),
        rimg_rect_fits(rc, a, x, y, rx, ry, rw, rh) == rimg_rect_fits(rc, b, x, y, rx, ry, rw, rh),
{
    assert(rimg_rect_fill(a, x, y, rx, ry) =~= rimg_rect_fill(b, x, y, rx, ry));
    let bx = rimg_rect_box(rc, rx, ry, rw, rh);
    if rimg_rect_fits(rc, a, x, y, rx, ry, rw, rh) {
        assert forall|lx: int, ly: int| bx.0 <= lx < bx.1 && bx.2 <= ly < bx.3 implies #[trigger] rimg_rect_cell(b, x, y, rx, ry, lx, ly) by {
            assert(rimg_rect_cell(a, x, y, rx, ry, lx, ly));
        }
    }
    if rimg_rect_fits(rc, b, x, y, rx, ry, rw, rh) {
        assert forall|lx: int, ly: int| bx.0 <= lx < bx.1 && bx.2 <= ly < bx.3 implies #[trigger] rimg_rect_cell(a, x, y, rx, ry, lx, ly) by {
            assert(rimg_rect_cell(b, x, y, rx, ry, lx, ly));
        }
    }
}

impl Rasterizer {
    /// Draws text directly to the screen using a provided font, as `Buffer::pprint` does:
    /// a newline moves to the start of the next line, `newline_space` pixels below the
    /// glyphs; a space moves one glyph width to the right; each other character draws,
    /// with `pimgrect` from the font image, every glyph of the font's index that is that
    /// character. Where `wrap_width` is given, the text continues on the next line once the
    /// pen has passed it (the pen position read as `u32`).
    pub fn pprint(&mut self, font: &Font, text: String, x: i64, y: i64, newline_space: i64, wrap_width: Option<u32>)
        requires
            old(self).wf(),
            old(self).width <= i64::MAX,
            old(self).height <= i64::MAX,
            font.wf(),
            font.fontimg.width * font.fontimg.height * 4 <= i64::MAX,
            rscan_text_ok(*font, text@, x as int, y as int, newline_space as int, wrap_width, text@.len() as int),
            rprint_fold_req(
                old(self).rcanvas(),
                old(self).state(),
                raster_of(font.fontimg),
                scan_text(*font, text@, x as int, y as int, newline_space as int, wrap_width, text@.len() as int).0,
            ),
        ensures
            final(self).wf(),
            final(self).same_setup(*old(self)),
            final(self).state() == rprint_fold(
                old(self).rcanvas(),
                old(self).state(),
                raster_of(font.fontimg),
                scan_text(*font, text@, x as int, y as int, newline_space as int, wrap_width, text@.len() as int).0,
            ),
    {
        let ghost rc: RCanvas = old(self).rcanvas();
        let ghost st0: (Seq<u8>, int) = old(self).state();
        let ghost gimg: Rasterizer = raster_of(font.fontimg);
        let ghost ns: int = newline_space as int;
        let flen: usize = font.fontimg.color.len();
        let mut img: Rasterizer = Rasterizer::new(font.fontimg.width, font.fontimg.height);
        img.color = font.fontimg.color.clone();
        assert(img.color@ =~= font.fontimg.color@);
        let mut chars: Vec<char> = Vec::new();
        for ch in it: text.as_str().chars()
            invariant
                chars@ == it.seq().take(it.index() as int),
        {
            chars.push(ch);
        }
        assert(chars@ == text@);
        let ghost t: Seq<char> = text@;
        let n: usize = chars.len();
        let glen: usize = font.glyphidx.len();
        let gw: i64 = font.glyph_width as i64;
        let gh: i64 = font.glyph_height as i64;
        let spacing: i64 = font.glyph_spacing;
        let fw: i64 = font.fontimg.width as i64;
        let mut jumpx: i64 = 0;
        let mut jumpy: i64 = 0;
        let mut i: usize = 0;
        while i < n
            invariant
                self.wf(),
                self.same_setup(*old(self)),
                self.width <= i64::MAX,
                self.height <= i64::MAX,
                rc == self.rcanvas(),
                gimg == raster_of(font.fontimg),
                img.width == gimg.width,
                img.height == gimg.height,
                img.color@ == gimg.color@,
                rimg_sized(img),
                font.wf(),
                chars@ == t,
                n == t.len(),
                glen == font.glyphidx@.len(),
                gw as int == font.glyph_width as int,
                gh as int == font.glyph_height as int,
                spacing as int == font.glyph_spacing as int,
                fw as int == font.fontimg.width as int,
                ns == newline_space as int,
                0 <= i <= n,
                jumpx as int == scan_text(*font, t, x as int, y as int, ns, wrap_width, i as int).1,
                jumpy as int == scan_text(*font, t, x as int, y as int, ns, wrap_width, i as int).2,
                self.state() == rprint_fold(rc, st0, gimg, scan_text(*font, t, x as int, y as int, ns, wrap_width, i as int).0),
                rscan_text_ok(*font, t, x as int, y as int, ns, wrap_width, n as int),
                rprint_fold_req(rc, st0, gimg, scan_text(*font, t, x as int, y as int, ns, wrap_width, n as int).0),
            decreases n - i,
        {
            let ghost st = scan_text(*font, t, x as int, y as int, ns, wrap_width, i as int);
            let ghost st1 = scan_text(*font, t, x as int, y as int, ns, wrap_width, i as int + 1);
            proof {
                lemma_scan_text_prefix(*font, t, x as int, y as int, ns, wrap_width, i as int + 1, n as int);
                lemma_rscan_text_ok_prefix(*font, t, x as int, y as int, ns, wrap_width, i as int + 1, n as int);
                let all = scan_text(*font, t, x as int, y as int, ns, wrap_width, n as int).0;
                lemma_rprint_fold_req_prefix(rc, st0, gimg, st1.0, all.subrange(st1.0.len() as int, all.len() as int));
            }
            let c: char = chars[i];
            if c == '\n' {
                jumpy = jumpy + (gh + newline_space);
                jumpx = 0;
            } else if c == ' ' {
                jumpx = jumpx + gw;
            } else {
                let ghost jx0: int = jumpx as int;
                let ghost jy: int = jumpy as int;
                let ghost calls_i: Seq<GlyphCall> = st.0;
                let ghost glyphs = font.scan_glyphs(c, x as int, y as int, jx0, jy, glen as int);
                assert(st1.0 == calls_i + glyphs.0);
                let mut j: usize = 0;
                while j < glen
                    invariant
                        self.wf(),
                        self.same_setup(*old(self)),
                        self.width <= i64::MAX,
                        self.height <= i64::MAX,
                        rc == self.rcanvas(),
                        gimg == raster_of(font.fontimg),
                        img.width == gimg.width,
                        img.height == gimg.height,
                        img.color@ == gimg.color@,
                        rimg_sized(img),
                        font.wf(),
                        glen == font.glyphidx@.len(),
                        gw as int == font.glyph_width as int,
                        gh as int == font.glyph_height as int,
                        spacing as int == font.glyph_spacing as int,
                        fw as int == font.fontimg.width as int,
                        jy == jumpy as int,
                        0 <= j <= glen,
                        glyphs == font.scan_glyphs(c, x as int, y as int, jx0, jy, glen as int),
                        jumpx as int == font.scan_glyphs(c, x as int, y as int, jx0, jy, j as int).1,
                        self.state() == rprint_fold(rc, st0, gimg, calls_i + font.scan_glyphs(c, x as int, y as int, jx0, jy, j as int).0),
                        font.rscan_glyphs_ok(c, x as int, y as int, jx0, jy, glen as int),
                        rprint_fold_req(rc, st0, gimg, calls_i + glyphs.0),
                    decreases glen - j,
                {
                    proof {
                        lemma_scan_glyphs_prefix(*font, c, x as int, y as int, jx0, jy, j as int + 1, glen as int);
                        font.lemma_rscan_glyphs_ok_prefix(c, x as int, y as int, jx0, jy, j as int + 1, glen as int);
                    }
                    if font.glyphidx[j] == c {
                        let ghost before = font.scan_glyphs(c, x as int, y as int, jx0, jy, j as int).0;
                        let ghost after = font.scan_glyphs(c, x as int, y as int, jx0, jy, j as int + 1).0;
                        let ghost k: GlyphCall = font.glyph_call(j as int, x as int, y as int, jumpx as int, jy);
                        proof {
                            assert(after == before.push(k));
                            assert((calls_i + after).drop_last() =~= calls_i + before);
                            assert((calls_i + after).last() == k);
                            assert(calls_i + glyphs.0 =~= (calls_i + after) + glyphs.0.subrange(after.len() as int, glyphs.0.len() as int));
                            lemma_rprint_fold_req_prefix(rc, st0, gimg, calls_i + after, glyphs.0.subrange(after.len() as int, glyphs.0.len() as int));
                            lemma_rimg_rect_same_image(rc, img, gimg, k.0, k.1, k.2, k.3, k.4, k.5);
                            assert(j < glen);
                            assert(j * font.glyph_width <= 0x7fff_ffff * 0x7fff_ffff) by (nonlinear_arith)
                                requires
                                    j <= 0x7fff_ffff,
                                    font.glyph_width <= 0x7fff_ffff,
                            ;
                        }
                        let p: i64 = (j as i64) * gw;
                        let rectx: i64 = p % fw;
                        let recty: i64 = (p / fw) * gh;
                        self.pimgrect(&img, x + jumpx, y + jumpy, rectx, recty, gw, gh);
                        jumpx = jumpx + (gw + spacing);
                    }
                    j = j + 1;
                }
                proof {
                    assert(font.scan_glyphs(c, x as int, y as int, jx0, jy, glen as int).0 == glyphs.0);
                }
                match wrap_width {
                    Some(w) => {
                        proof {
                            lemma_as_u32_i64(jumpx);
                        }
                        if (#[verifier::truncate] (jumpx as u32)) > w {
                            jumpy = jumpy + (gh + newline_space);
                            jumpx = 0;
                        }
                    },
                    None => {},
                }
            }
            i = i + 1;
        }
        assert(t.len() == n);
    }
}

/// What can be computed for the first `j` characters with a rasterizer can be for fewer.
pub proof fn lemma_rscan_text_ok_prefix(font: Font, text: Seq<char>, x: int, y: int, ns: int, wrap: Option<u32>, i: int, j: int)
    requires
        0 <= i <= j,
        rscan_text_ok(font, text, x, y, ns, wrap, j),
    ensures
        rscan_text_ok(font, text, x, y, ns, wrap, i),
    decreases j - i,
{
    if i < j {
        lemma_rscan_text_ok_prefix(font, text, x, y, ns, wrap, i, j - 1);
    }
}

impl Font {
    /// What can be computed for `k` glyphs with a rasterizer can be for `j <= k`.
    pub proof fn lemma_rscan_glyphs_ok_prefix(self, c: char, x: int, y: int, jx: int, jy: int, j: int, k: int)
        requires
            0 <= j <= k,
            self.rscan_glyphs_ok(c, x, y, jx, jy, k),
        ensures
            self.rscan_glyphs_ok(c, x, y, jx, jy, j),
        decreases k - j,
    {
        if j < k {
            self.lemma_rscan_glyphs_ok_prefix(c, x, y, jx, jy, j, k - 1);
        }
    }
}

} // verus!
