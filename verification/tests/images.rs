use aftershock::buffer::Buffer;
use aftershock::color::Color;
use aftershock::font::{Font, FontGlyph};
use aftershock::framebuffer::FrameBuffer;
use aftershock::image::Image;
use aftershock::rasterizer::Rasterizer;

fn rgba(c: Color) -> (u8, u8, u8, u8) {
    (c.r, c.g, c.b, c.a)
}

#[test]
fn image_default_is_error_pixel() {
    let img = Image::default();
    assert_eq!((img.width, img.height), (1, 1));
    assert!(img.is_error);
    assert_eq!(img.buffer, vec![255, 255, 255, 0]);
}

#[test]
fn image_new_with_size_and_pixels() {
    let mut img = Image::new_with_size(3, 2);
    assert!(!img.is_error);
    assert_eq!(img.buffer.len(), 24);
    img.pset(2, 1, Color::orange());
    assert_eq!(rgba(img.pget(2, 1)), rgba(Color::orange()));
    img.pset(3, 1, Color::red());
    assert_eq!(rgba(img.pget(3, 1)), (0, 0, 0, 0));
    assert_eq!(rgba(img.pget(-1, 0)), (0, 0, 0, 0));
}

#[test]
fn image_without_bytes_reads_black() {
    let mut img = Image { buffer: Vec::new(), width: 0, height: 0, is_error: false };
    img.pset(0, 0, Color::white());
    assert!(img.buffer.is_empty());
    assert_eq!(rgba(img.pget(0, 0)), rgba(Color::black()));
}

#[test]
fn framebuffer_new_and_to_image() {
    let mut fb = FrameBuffer::new(2, 3);
    assert_eq!(fb.color.len(), 24);
    fb.color[0] = 7;
    let img = fb.to_image();
    assert_eq!((img.width, img.height), (2, 3));
    assert_eq!(img.buffer, fb.color);
    assert!(!img.is_error);
}

#[test]
fn framebuffer_to_image_buffer_copies_same_size() {
    let mut fb = FrameBuffer::new(2, 2);
    for (i, v) in fb.color.iter_mut().enumerate() {
        *v = i as u8;
    }
    let mut out = vec![7u8; 16];
    fb.to_image_buffer(&mut out);
    assert_eq!(out, fb.color);
    // a buffer of another size is left as it was
    let mut other = vec![7u8; 5];
    fb.to_image_buffer(&mut other);
    assert_eq!(other, vec![7u8; 5]);
}

#[test]
fn framebuffer_blit_with_offset() {
    let mut dst = FrameBuffer::new(4, 3);
    let mut src = FrameBuffer::new(2, 2);
    for v in src.color.iter_mut() {
        *v = 9;
    }
    dst.blit_framebuffer(&src, 1, 1);
    let px = |fb: &FrameBuffer, x: usize, y: usize| fb.color[(y * fb.width + x) * 4];
    assert_eq!(px(&dst, 0, 0), 0);
    assert_eq!(px(&dst, 1, 1), 9);
    assert_eq!(px(&dst, 2, 2), 9);
    assert_eq!(px(&dst, 3, 2), 0);
    assert_eq!(px(&dst, 1, 0), 0);
}

#[test]
fn framebuffer_blit_same_size_and_out_of_bounds() {
    let mut dst = FrameBuffer::new(2, 3);
    let mut src = FrameBuffer::new(2, 3);
    for (i, v) in src.color.iter_mut().enumerate() {
        *v = i as u8;
    }
    // shifted down, the source no longer fits: nothing is drawn
    dst.blit_framebuffer(&src, 0, 1);
    assert!(dst.color.iter().all(|&v| v == 0));
    // at the origin it is copied whole
    dst.blit_framebuffer(&src, 0, 0);
    assert_eq!(dst.color, src.color);
    // a 2 by 2 source at (0, 3) of a 4 by 4 target does not fit either
    let mut big = FrameBuffer::new(4, 4);
    let small = FrameBuffer { width: 2, height: 2, color: vec![5u8; 16] };
    big.blit_framebuffer(&small, 0, 3);
    assert!(big.color.iter().all(|&v| v == 0));
}

fn test_font() -> Font {
    // glyphs 'A' and 'B', each 2 by 1, side by side in a 4 by 1 image
    let mut img = Buffer::new(4, 1);
    img.pset(0, 0, Color::red());
    img.pset(1, 0, Color::red());
    img.pset(2, 0, Color::blue());
    img.pset(3, 0, Color::blue());
    Font {
        glyphidx: vec!['A', 'B'],
        glyphidx_sizes: vec![FontGlyph::new(0, 0, 2, 1), FontGlyph::new(2, 0, 2, 1)],
        fontimg: img,
        glyph_width: 2,
        glyph_height: 1,
        glyph_spacing: 1,
    }
}

#[test]
fn font_glyph_new_keeps_fields() {
    let g = FontGlyph::new(1, 2, 3, 4);
    assert_eq!((g.x, g.y, g.w, g.h), (1, 2, 3, 4));
}

#[test]
fn pprint_places_glyphs() {
    let font = test_font();
    let mut b = Buffer::new(10, 3);
    b.pprint(&font, "BA".to_string(), 1, 0, 0, None);
    // 'B' at x 1..3, then the pen moves glyph width plus spacing: 'A' at x 4..6
    assert_eq!(rgba(b.pget(1, 0)), rgba(Color::blue()));
    assert_eq!(rgba(b.pget(2, 0)), rgba(Color::blue()));
    assert_eq!(rgba(b.pget(3, 0)), (0, 0, 0, 0));
    assert_eq!(rgba(b.pget(4, 0)), rgba(Color::red()));
    assert_eq!(rgba(b.pget(5, 0)), rgba(Color::red()));
}

#[test]
fn pprint_newline_and_space() {
    let font = test_font();
    let mut b = Buffer::new(10, 4);
    b.pprint(&font, " A\nB".to_string(), 0, 0, 1, None);
    // a space moves one glyph width; a newline moves glyph height plus spacing down
    assert_eq!(rgba(b.pget(2, 0)), rgba(Color::red()));
    assert_eq!(rgba(b.pget(0, 0)), (0, 0, 0, 0));
    assert_eq!(rgba(b.pget(0, 2)), rgba(Color::blue()));
}

#[test]
fn pprint_wraps_past_width() {
    let font = test_font();
    let mut b = Buffer::new(10, 4);
    b.pprint(&font, "AB".to_string(), 0, 0, 0, Some(2));
    // after 'A' the pen is at 3, past the wrap width: 'B' starts the next line
    assert_eq!(rgba(b.pget(0, 0)), rgba(Color::red()));
    assert_eq!(rgba(b.pget(0, 1)), rgba(Color::blue()));
    assert_eq!(rgba(b.pget(3, 0)), (0, 0, 0, 0));
}

#[test]
fn rasterizer_pprint_places_glyphs() {
    let font = test_font();
    let mut r = Rasterizer::new(10, 4);
    r.pprint(&font, "BA\nA".to_string(), 1, 0, 1, None);
    assert_eq!(rgba(r.pget(1, 0)), rgba(Color::blue()));
    assert_eq!(rgba(r.pget(2, 0)), rgba(Color::blue()));
    assert_eq!(rgba(r.pget(3, 0)), (0, 0, 0, 0));
    assert_eq!(rgba(r.pget(4, 0)), rgba(Color::red()));
    assert_eq!(rgba(r.pget(5, 0)), rgba(Color::red()));
    // the newline moves glyph height plus newline space down and back to the start
    assert_eq!(rgba(r.pget(1, 2)), rgba(Color::red()));
    assert_eq!(rgba(r.pget(2, 2)), rgba(Color::red()));
    assert_eq!(rgba(r.pget(1, 1)), (0, 0, 0, 0));
    // each glyph pixel is one counted, stored pset
    assert_eq!(r.drawn_pixels_since_clear, 12);
}

#[test]
fn rasterizer_pprint_wraps_past_width() {
    let font = test_font();
    let mut r = Rasterizer::new(10, 4);
    r.pprint(&font, "A B".to_string(), 0, 0, 0, Some(2));
    // after 'A' the pen is at 3, past the wrap width; the space moves it to 2, and 'B'
    // then starts there on the next line
    assert_eq!(rgba(r.pget(0, 0)), rgba(Color::red()));
    assert_eq!(rgba(r.pget(2, 1)), rgba(Color::blue()));
    assert_eq!(rgba(r.pget(0, 1)), (0, 0, 0, 0));
}
