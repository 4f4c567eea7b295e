use aftershock::buffer::Buffer;
use aftershock::color::Color;

fn rgba(c: Color) -> (u8, u8, u8, u8) {
    (c.r, c.g, c.b, c.a)
}

#[test]
fn composite_opaque_takes_opaque_source_pixels() {
    let mut dst = Buffer::new(2, 1);
    dst.clear_color(Color::new(1, 2, 3, 4));
    let mut src = Buffer::new(2, 1);
    src.pset(0, 0, Color::new(10, 20, 30, 255));
    src.pset(1, 0, Color::new(10, 20, 30, 254));
    dst.pcomposite_opaque(&src);
    assert_eq!(rgba(dst.pget(0, 0)), (10, 20, 30, 255));
    assert_eq!(rgba(dst.pget(1, 0)), (1, 2, 3, 4));
}

#[test]
fn composite_size_mismatch_does_nothing() {
    let mut dst = Buffer::new(2, 1);
    dst.clear_color(Color::white());
    let src = Buffer::new(1, 1);
    dst.pcomposite_opaque(&src);
    dst.pcomposite_multiply(&src);
    dst.pcomposite_alpha(&src, 0);
    assert!(dst.color.iter().all(|&v| v == 255));
}

#[test]
fn composite_alpha_blends_over_source() {
    let mut dst = Buffer::new(1, 1);
    dst.clear_color(Color::new(200, 0, 100, 255));
    let mut src = Buffer::new(1, 1);
    src.clear_color(Color::new(0, 100, 100, 255));
    // weight of this buffer: 255 - (255 - (255 - 55)) = 200
    dst.pcomposite_alpha(&src, 55);
    let expect = Color::blend_fast(Color::new(200, 0, 100, 255), Color::new(0, 100, 100, 255), 200);
    assert_eq!(rgba(dst.pget(0, 0)), rgba(expect));
    assert_eq!(rgba(expect), (156, 21, 99, 255));
}

#[test]
fn composite_multiply_blends_then_multiplies() {
    let mut dst = Buffer::new(1, 1);
    dst.clear_color(Color::new(255, 128, 0, 255));
    let mut src = Buffer::new(1, 1);
    src.clear_color(Color::new(128, 255, 64, 255));
    dst.pcomposite_multiply(&src);
    let expect = Color::blend_fast(Color::new(255, 128, 0, 255), Color::new(128, 255, 64, 255), 255) * Color::new(128, 255, 64, 255);
    assert_eq!(rgba(dst.pget(0, 0)), rgba(expect));
}

#[test]
fn blit_same_size_copies_whole() {
    let mut dst = Buffer::new(2, 2);
    let mut src = Buffer::new(2, 2);
    src.clear_color(Color::cyan());
    // shifted, a same-size source does not fit and is not drawn
    dst.blit(&src, 7, 7);
    assert!(dst.color.iter().all(|&v| v == 0));
    dst.blit(&src, 0, 0);
    assert_eq!(dst.color, src.color);
}

#[test]
fn blit_offset_copies_into_place() {
    let mut dst = Buffer::new(4, 3);
    dst.clear_color(Color::black());
    let mut src = Buffer::new(2, 2);
    src.clear_color(Color::red());
    src.pset(1, 1, Color::green());
    dst.blit(&src, 1, 1);
    assert_eq!(rgba(dst.pget(0, 0)), rgba(Color::black()));
    assert_eq!(rgba(dst.pget(1, 1)), rgba(Color::red()));
    assert_eq!(rgba(dst.pget(2, 1)), rgba(Color::red()));
    assert_eq!(rgba(dst.pget(1, 2)), rgba(Color::red()));
    assert_eq!(rgba(dst.pget(2, 2)), rgba(Color::green()));
    assert_eq!(rgba(dst.pget(3, 2)), rgba(Color::black()));
}

#[test]
fn blit_not_fitting_does_nothing() {
    let mut dst = Buffer::new(4, 3);
    let mut src = Buffer::new(2, 2);
    src.clear_color(Color::red());
    dst.blit(&src, 3, 0);
    dst.blit(&src, -1, 0);
    dst.blit(&src, 0, 2);
    assert!(dst.color.iter().all(|&v| v == 0));
}

#[test]
fn tint_buffer_multiplies_each_pixel() {
    let mut b = Buffer::new(2, 1);
    b.clear_color(Color::new(200, 100, 255, 9));
    b.tint_buffer(Color::new(128, 255, 0, 0));
    assert_eq!(rgba(b.pget(0, 0)), (100, 100, 0, 9));
    assert_eq!(rgba(b.pget(1, 0)), rgba(b.pget(0, 0)));
    let before = b.color.clone();
    b.tint_buffer(Color::white());
    assert_eq!(b.color, before);
}
