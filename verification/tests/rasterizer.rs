use aftershock::color::Color;
use aftershock::rasterizer::{Rasterizer, DrawMode, PSetOp};

fn rgba(c: Color) -> (u8, u8, u8, u8) {
    (c.r, c.g, c.b, c.a)
}

fn lit(r: &Rasterizer) -> Vec<(i64, i64)> {
    let mut v = Vec::new();
    for y in 0..r.height as i64 {
        for x in 0..r.width as i64 {
            if r.pget(x, y).a != 0 {
                v.push((x, y));
            }
        }
    }
    v
}

#[test]
fn rasterizer_new_defaults() {
    let r = Rasterizer::new(3, 2);
    assert_eq!(r.color.len(), 24);
    assert!(r.color.iter().all(|&v| v == 0));
    assert_eq!(r.pset_op, PSetOp::Opaque);
    assert_eq!(r.draw_mode, DrawMode::Opaque);
    assert_eq!(rgba(r.tint), rgba(Color::white()));
    assert_eq!(r.opacity, 255);
    assert_eq!(r.drawn_pixels_since_clear, 0);
    assert!(!r.render_next_frame_as_animation);
    assert_eq!(r.render_next_frame_folder, "./");
}

#[test]
fn rasterizer_opaque_pset_counts() {
    let mut r = Rasterizer::new(4, 4);
    r.pset(1, 2, Color::new(10, 20, 30, 255));
    assert_eq!(rgba(r.pget(1, 2)), (10, 20, 30, 255));
    assert_eq!(r.drawn_pixels_since_clear, 2);
    // a translucent pixel is skipped by the opaque mode, but the call counts
    r.pset(0, 0, Color::new(1, 1, 1, 254));
    assert_eq!(rgba(r.pget(0, 0)), (0, 0, 0, 0));
    assert_eq!(r.drawn_pixels_since_clear, 3);
    // so does a call off the buffer
    r.pset(4, 0, Color::white());
    r.pset(-1, -1, Color::white());
    assert_eq!(r.drawn_pixels_since_clear, 5);
    assert_eq!(rgba(r.pget(7, 7)), (0, 0, 0, 0));
}

#[test]
fn rasterizer_set_draw_mode() {
    let mut r = Rasterizer::new(2, 2);
    r.set_draw_mode(DrawMode::NoOp);
    assert_eq!(r.pset_op, PSetOp::NoOp);
    assert_eq!(r.draw_mode, DrawMode::NoOp);
    r.set_draw_mode(DrawMode::PatternAlpha);
    assert_eq!(r.pset_op, PSetOp::Alpha);
    assert_eq!(r.draw_mode, DrawMode::PatternAlpha);
    r.set_draw_mode(DrawMode::Subtraction);
    assert_eq!(r.pset_op, PSetOp::Subtraction);
    r.set_draw_mode(DrawMode::PatternDivide);
    assert_eq!(r.pset_op, PSetOp::Divide);
    r.set_draw_mode(DrawMode::InvertedBgAlpha);
    assert_eq!(r.draw_mode, DrawMode::InvertedBgAlpha);
    assert_eq!(r.pset_op, PSetOp::InvertedBgAlpha);
    r.pset_op = PSetOp::NoOp;
    r.pset(1, 1, Color::new(1, 2, 3, 0));
    assert_eq!(rgba(r.pget(1, 1)), (1, 2, 3, 0));
}

#[test]
fn rasterizer_noalpha_and_tint() {
    let mut r = Rasterizer::new(2, 1);
    r.set_draw_mode(DrawMode::NoAlpha);
    r.tint = Color::new(128, 255, 0, 255);
    r.pset(0, 0, Color::new(200, 100, 50, 7));
    assert_eq!(rgba(r.pget(0, 0)), (100, 100, 0, 7));
    r.set_draw_mode(DrawMode::ForceTint);
    r.pset(1, 0, Color::new(1, 1, 1, 255));
    assert_eq!(rgba(r.pget(1, 0)), (128, 255, 0, 255));
}

#[test]
fn rasterizer_alpha_mode_blends() {
    let mut r = Rasterizer::new(1, 1);
    r.set_draw_mode(DrawMode::Alpha);
    r.pset(0, 0, Color::new(200, 100, 50, 255));
    assert_eq!(rgba(r.pget(0, 0)), (199, 99, 49, 255));
    let mut h = Rasterizer::new(1, 1);
    h.set_draw_mode(DrawMode::Alpha);
    h.clear_color(Color::new(0, 0, 255, 0));
    h.pset(0, 0, Color::new(255, 0, 0, 128));
    assert_eq!(rgba(h.pget(0, 0)), (127, 0, 126, 255));
}

#[test]
fn rasterizer_addition_skips_transparent() {
    let mut r = Rasterizer::new(1, 1);
    r.set_draw_mode(DrawMode::Addition);
    r.pset(0, 0, Color::new(9, 9, 9, 0));
    assert_eq!(rgba(r.pget(0, 0)), (0, 0, 0, 0));
    assert_eq!(r.drawn_pixels_since_clear, 1);
}

#[test]
fn rasterizer_multiply_and_inverted_modes() {
    let mut r = Rasterizer::new(1, 1);
    r.clear_color(Color::new(10, 20, 30, 40));
    r.set_draw_mode(DrawMode::InvertedOpaque);
    r.pset(0, 0, Color::white());
    assert_eq!(rgba(r.pget(0, 0)), (245, 235, 225, 255));

    let mut m = Rasterizer::new(1, 1);
    m.clear_color(Color::new(200, 100, 50, 0));
    m.set_draw_mode(DrawMode::Multiply);
    m.pset(0, 0, Color::new(0, 255, 255, 255));
    // the inverted color (255, 0, 0) is blended over the background and multiplied with it
    let blend = Color::blend_fast(Color::new(255, 0, 0, 255), Color::new(200, 100, 50, 255), 255);
    let expect = blend * Color::new(200, 100, 50, 255);
    assert_eq!(rgba(m.pget(0, 0)), rgba(expect));

    let mut i = Rasterizer::new(1, 1);
    i.clear_color(Color::new(100, 0, 200, 0));
    i.set_draw_mode(DrawMode::InvertedAlpha);
    i.pset(0, 0, Color::new(255, 255, 0, 255));
    let expect = Color::blend_fast(Color::new(0, 0, 255, 255), Color::new(100, 0, 200, 255), 255);
    assert_eq!(rgba(i.pget(0, 0)), rgba(expect));

    let mut b = Rasterizer::new(1, 1);
    b.clear_color(Color::new(100, 0, 200, 0));
    b.set_draw_mode(DrawMode::InvertedBgAlpha);
    b.pset(0, 0, Color::new(1, 1, 1, 254));
    assert_eq!(rgba(b.pget(0, 0)), (100, 0, 200, 0));
    b.pset(0, 0, Color::new(1, 1, 1, 255));
    let expect = Color::blend_fast(Color::new(100, 0, 200, 255), Color::new(155, 255, 55, 255), 255);
    assert_eq!(rgba(b.pget(0, 0)), rgba(expect));
}

#[test]
fn rasterizer_pline_clamps_ends() {
    let mut r = Rasterizer::new(5, 5);
    r.pline(-1, -1, 3, 1, Color::white());
    assert_eq!(lit(&r), vec![(0, 0), (1, 0), (2, 1), (3, 1)]);
    assert_eq!(r.drawn_pixels_since_clear, 8);
}

#[test]
fn rasterizer_cline_points() {
    let mut r = Rasterizer::new(1, 1);
    assert_eq!(r.cline(0, 0, 4, 2), vec![(0, 0), (1, 0), (2, 1), (3, 1), (4, 2)]);
    assert_eq!(r.cline(5, 1, 1, 3), vec![(5, 1), (4, 1), (3, 2), (2, 2), (1, 3)]);
    assert_eq!(r.cline(0, 0, 2, 5), vec![(0, 0), (0, 1), (1, 2), (1, 3), (1, 4), (2, 5)]);
    assert_eq!(r.cline(0, 0, -2, -2), vec![(0, 0), (0, -1), (-1, -1), (-1, -2), (-2, -2)]);
    assert_eq!(r.cline(-3, 7, -3, 7), vec![(-3, 7)]);
    assert_eq!(r.drawn_pixels_since_clear, 0);
}

#[test]
fn rasterizer_prectangle() {
    let mut r = Rasterizer::new(5, 5);
    r.prectangle(true, 3, -2, 9, 4, Color::red());
    assert_eq!(lit(&r), vec![(3, 0), (4, 0), (3, 1), (4, 1)]);
    let mut o = Rasterizer::new(5, 5);
    o.prectangle(false, 1, 1, 2, 2, Color::red());
    assert_eq!(lit(&o), vec![(1, 1), (2, 1), (3, 1), (1, 2), (3, 2), (1, 3), (2, 3), (3, 3)]);
}

#[test]
fn rasterizer_pcircle() {
    let mut r = Rasterizer::new(11, 11);
    r.pcircle(true, 5, 5, 2, Color::white());
    assert_eq!(
        lit(&r),
        vec![(5, 3), (4, 4), (5, 4), (6, 4), (3, 5), (4, 5), (5, 5), (6, 5), (7, 5), (4, 6), (5, 6), (6, 6), (5, 7)]
    );
    let mut o = Rasterizer::new(5, 5);
    o.pcircle(false, 2, 2, 1, Color::white());
    assert_eq!(lit(&o), vec![(2, 1), (1, 2), (3, 2), (2, 3)]);
}

#[test]
fn rasterizer_ptriangle_filled_spans_leftmost_to_rightmost_edge_pixel() {
    let mut r = Rasterizer::new(6, 6);
    r.ptriangle(true, 0, 0, 4, 0, 0, 4, Color::green());
    assert_eq!(
        lit(&r),
        vec![
            (0, 0), (1, 0), (2, 0), (3, 0), (4, 0),
            (0, 1), (1, 1), (2, 1), (3, 1), (4, 1),
            (0, 2), (1, 2), (2, 2), (3, 2),
            (0, 3), (1, 3), (2, 3),
            (0, 4), (1, 4),
        ]
    );
}

#[test]
fn rasterizer_ptriangle_outline() {
    let mut r = Rasterizer::new(6, 6);
    r.ptriangle(false, 0, 0, 4, 0, 0, 4, Color::green());
    assert_eq!(rgba(r.pget(4, 0)), rgba(Color::green()));
    assert_eq!(rgba(r.pget(2, 2)), rgba(Color::green()));
    assert_eq!(rgba(r.pget(0, 3)), rgba(Color::green()));
    assert_eq!(rgba(r.pget(1, 1)), (0, 0, 0, 0));
}

#[test]
fn rasterizer_pimg_and_pimgrect() {
    let mut img = Rasterizer::new(2, 2);
    img.pset(0, 0, Color::red());
    img.pset(1, 1, Color::blue());
    let mut r = Rasterizer::new(4, 4);
    r.pimg(&img, 2, 1);
    assert_eq!(lit(&r), vec![(2, 1), (3, 2)]);

    let mut strip = Rasterizer::new(4, 1);
    strip.pset(1, 0, Color::green());
    strip.pset(2, 0, Color::blue());
    let mut s = Rasterizer::new(5, 2);
    s.pimgrect(&strip, 2, 1, 1, 0, 2, 1);
    assert_eq!(lit(&s), vec![(2, 1), (3, 1)]);
    assert_eq!(rgba(s.pget(3, 1)), rgba(Color::blue()));
}

#[test]
fn rasterizer_blit() {
    let mut dst = Rasterizer::new(4, 3);
    let mut src = Rasterizer::new(2, 2);
    src.clear_color(Color::red());
    dst.blit(&src, 2, 1);
    assert_eq!(lit(&dst), vec![(2, 1), (3, 1), (2, 2), (3, 2)]);
    let mut same = Rasterizer::new(2, 2);
    same.blit(&src, 5, 5);
    assert!(same.color.iter().all(|&v| v == 0));
    same.blit(&src, 0, 0);
    assert_eq!(same.color, src.color);
    let mut none = Rasterizer::new(4, 3);
    none.blit(&src, 3, 0);
    assert!(none.color.iter().all(|&v| v == 0));
}

#[test]
fn rasterizer_clear_resets_count_and_saving() {
    let mut r = Rasterizer::new(2, 2);
    r.save_next_frame_draw_process_until_clear("frames/");
    assert!(r.render_next_frame_as_animation);
    assert_eq!(r.render_next_frame_folder, "frames/");
    r.pset(0, 0, Color::white());
    r.clear_color(Color::blue());
    assert_eq!(r.drawn_pixels_since_clear, 0);
    assert!(!r.render_next_frame_as_animation);
    assert!(r.color.chunks(4).all(|c| c == [0, 0, 255, 255]));
    r.pset(0, 0, Color::white());
    r.clear();
    assert_eq!(r.drawn_pixels_since_clear, 0);
    assert!(r.color.iter().all(|&v| v == 0));
}

#[test]
fn rasterizer_resize() {
    let mut r = Rasterizer::new(2, 2);
    r.clear_color(Color::white());
    r.resize(3, 1);
    assert_eq!((r.width, r.height, r.color.len()), (3, 1, 12));
    assert!(r.color.iter().all(|&v| v == 0));
}

#[test]
fn rasterizer_subtraction_and_divide() {
    let mut r = Rasterizer::new(2, 1);
    r.clear_color(Color::new(200, 100, 50, 255));
    let c = Color::new(50, 150, 20, 255);
    r.set_draw_mode(DrawMode::Subtraction);
    r.pset(0, 0, c);
    // the blended incoming color is (49, 149, 19): subtracted, down to 0
    assert_eq!(rgba(r.pget(0, 0)), (151, 0, 31, 255));
    r.set_draw_mode(DrawMode::Divide);
    r.pset(1, 0, c);
    // divided, up to 255
    assert_eq!(rgba(r.pget(1, 0)), (255, 171, 255, 255));
    // a fully transparent pixel is skipped but counted
    r.pset(1, 0, Color::new(1, 1, 1, 0));
    assert_eq!(rgba(r.pget(1, 0)), (255, 171, 255, 255));
    assert_eq!(r.drawn_pixels_since_clear, 5);
}

#[test]
fn rasterizer_cline_point_counts() {
    let mut r = Rasterizer::new(4, 4);
    assert_eq!(r.cline(0, 0, 3, 1).len(), 4);
    assert_eq!(r.cline(5, -2, -1, 7).len(), 10);
    assert_eq!(r.cline(-3, 4, 8, 4).len(), 12);
    assert_eq!(r.cline(2, 2, 2, 2).len(), 1);
}
