use aftershock::buffer::{Buffer, BufferShader};
use aftershock::color::Color;
use aftershock::shader::{Shader, ShaderAddition, ShaderForceColor, ShaderTint, ShaderOpaque, ShaderNoOp, ShaderParams};

fn rgba(c: Color) -> (u8, u8, u8, u8) {
    (c.r, c.g, c.b, c.a)
}

fn lit(b: &Buffer) -> Vec<(i32, i32)> {
    let mut v = Vec::new();
    for y in 0..b.height as i32 {
        for x in 0..b.width as i32 {
            if b.pget(x, y).a != 0 {
                v.push((x, y));
            }
        }
    }
    v
}

#[test]
fn buffer_new_is_transparent() {
    let b = Buffer::new(3, 2);
    assert_eq!(b.width, 3);
    assert_eq!(b.height, 2);
    assert_eq!(b.color.len(), 24);
    assert!(b.color.iter().all(|&v| v == 0));
    assert!(b.is_drawing);
    assert!(b.shader_stack.is_empty());
}

#[test]
fn buffer_pset_then_pget() {
    let mut b = Buffer::new(4, 4);
    b.pset(2, 1, Color::new(1, 2, 3, 4));
    assert_eq!(rgba(b.pget(2, 1)), (1, 2, 3, 4));
    assert_eq!(rgba(b.pget(1, 2)), (0, 0, 0, 0));
    assert_eq!(&b.color[(1 * 4 + 2) * 4..(1 * 4 + 2) * 4 + 4], &[1, 2, 3, 4]);
}

#[test]
fn buffer_pset_out_of_bounds_does_nothing() {
    let mut b = Buffer::new(4, 4);
    b.pset(4, 0, Color::white());
    b.pset(-1, 0, Color::white());
    b.pset(0, 4, Color::white());
    assert!(b.color.iter().all(|&v| v == 0));
    assert_eq!(rgba(b.pget(9, 9)), (0, 0, 0, 0));
    assert_eq!(rgba(b.pget(-1, 2)), (0, 0, 0, 0));
}

#[test]
fn buffer_pset_disabled_drawing() {
    let mut b = Buffer::new(2, 2);
    b.is_drawing = false;
    b.pset(0, 0, Color::white());
    assert_eq!(rgba(b.pget(0, 0)), (0, 0, 0, 0));
}

#[test]
fn buffer_pset_panic_oob_writes_row_major() {
    let mut b = Buffer::new(3, 3);
    b.pset_panic_oob(3, 0, Color::red());
    assert_eq!(rgba(b.pget(0, 1)), (255, 0, 0, 255));
}

#[test]
fn buffer_pget_wrap_wraps_both_ways() {
    let mut b = Buffer::new(3, 2);
    b.pset(2, 1, Color::green());
    assert_eq!(rgba(b.pget_wrap(-1, -1)), (0, 255, 0, 255));
    assert_eq!(rgba(b.pget_wrap(5, 3)), (0, 255, 0, 255));
    assert_eq!(rgba(b.pget_wrap(3, 2)), (0, 0, 0, 0));
}

#[test]
fn buffer_clear_color_fills_every_pixel() {
    let mut b = Buffer::new(3, 2);
    b.clear_color(Color::new(9, 8, 7, 6));
    for y in 0..2 {
        for x in 0..3 {
            assert_eq!(rgba(b.pget(x, y)), (9, 8, 7, 6));
        }
    }
    b.clear();
    assert!(b.color.iter().all(|&v| v == 0));
}

#[test]
fn buffer_resize_clears() {
    let mut b = Buffer::new(2, 2);
    b.clear_color(Color::white());
    b.resize(5, 1);
    assert_eq!((b.width, b.height, b.color.len()), (5, 1, 20));
    assert!(b.color.iter().all(|&v| v == 0));
}

#[test]
fn buffer_shaders_run_in_order() {
    let mut b = Buffer::new(2, 2);
    b.add_shader(BufferShader::new(Shader::Tint(ShaderTint { tint: Color::new(128, 128, 128, 255) }), true, 5));
    b.add_shader(BufferShader::new(Shader::ForceColor(ShaderForceColor { color: Color::new(200, 100, 0, 255) }), true, 1));
    assert_eq!(b.shader_stack[0].order, 1);
    assert_eq!(b.shader_stack[1].order, 5);
    let out = b.run_pixel_in_shaders(1, 1, Color::white(), ShaderParams::new(1, 1, Color::white()));
    // forced to (200, 100, 0) first, then tinted by half grey
    assert_eq!((out.0, out.1), (1, 1));
    assert_eq!(rgba(out.2), (100, 50, 0, 255));
}

#[test]
fn buffer_inactive_and_opaque_shaders() {
    let mut b = Buffer::new(2, 2);
    b.add_shader(BufferShader::new(Shader::ForceColor(ShaderForceColor { color: Color::red() }), false, 0));
    b.add_shader(BufferShader::new(Shader::Opaque(ShaderOpaque), true, 0));
    b.add_shader(BufferShader::new(Shader::NoOp(ShaderNoOp), true, 0));
    let c = Color::new(1, 2, 3, 100);
    let out = b.run_pixel_in_shaders(0, 1, c, ShaderParams::new(0, 1, c));
    assert_eq!(rgba(out.2), (1, 2, 3, 100));
    b.clear_shaders();
    assert!(b.shader_stack.is_empty());
}

#[test]
fn buffer_add_shader_is_stable() {
    let mut b = Buffer::new(1, 1);
    b.add_shader(BufferShader::new(Shader::ForceColor(ShaderForceColor { color: Color::red() }), true, 3));
    b.add_shader(BufferShader::new(Shader::ForceColor(ShaderForceColor { color: Color::green() }), true, 1));
    b.add_shader(BufferShader::new(Shader::ForceColor(ShaderForceColor { color: Color::blue() }), true, 3));
    b.add_shader(BufferShader::new(Shader::ForceColor(ShaderForceColor { color: Color::white() }), true, 1));
    let orders: Vec<u8> = b.shader_stack.iter().map(|s| s.order).collect();
    assert_eq!(orders, vec![1, 1, 3, 3]);
    let colors: Vec<(u8, u8, u8, u8)> = b
        .shader_stack
        .iter()
        .map(|s| match s.shader {
            Shader::ForceColor(f) => rgba(f.color),
            _ => (0, 0, 0, 0),
        })
        .collect();
    assert_eq!(colors, vec![rgba(Color::green()), rgba(Color::white()), rgba(Color::red()), rgba(Color::blue())]);
}

#[test]
fn buffer_pline_points() {
    let mut b = Buffer::new(6, 4);
    b.pline(0, 0, 4, 2, Color::white());
    assert_eq!(lit(&b), vec![(0, 0), (1, 1), (2, 1), (3, 2), (4, 2)]);
    let mut b = Buffer::new(6, 4);
    b.pline(5, 1, 1, 3, Color::white());
    let mut expect = vec![(5, 1), (4, 2), (3, 2), (2, 3), (1, 3)];
    expect.sort_by_key(|p| (p.1, p.0));
    assert_eq!(lit(&b), expect);
}

#[test]
fn buffer_cline_counts_points() {
    let mut b = Buffer::new(6, 4);
    assert_eq!(b.cline(0, 0, 4, 2), 5);
    assert_eq!(b.cline(2, 2, 2, 2), 1);
    assert_eq!(b.cline(0, 0, 0, -7), 8);
    assert!(b.color.iter().all(|&v| v == 0));
}

#[test]
fn buffer_prectangle_filled_clamps() {
    let mut b = Buffer::new(4, 4);
    b.prectangle(true, 2, -1, 5, 3, Color::blue());
    assert_eq!(lit(&b), vec![(2, 0), (3, 0), (2, 1), (3, 1)]);
}

#[test]
fn buffer_prectangle_outline() {
    let mut b = Buffer::new(5, 5);
    b.prectangle(false, 1, 1, 2, 2, Color::blue());
    assert_eq!(lit(&b), vec![(1, 1), (2, 1), (3, 1), (1, 2), (3, 2), (1, 3), (2, 3), (3, 3)]);
}

#[test]
fn buffer_ptriangle_filled_and_outline() {
    let mut b = Buffer::new(5, 5);
    b.ptriangle(true, 0, 0, 4, 0, 0, 4, Color::red());
    // the box is half open: rows 0..4 and columns 0..4
    let mut expect = Vec::new();
    for y in 0..4 {
        for x in 0..4 {
            if x + y <= 4 {
                expect.push((x, y));
            }
        }
    }
    assert_eq!(lit(&b), expect);
    let mut o = Buffer::new(5, 5);
    o.ptriangle(false, 0, 0, 4, 0, 0, 4, Color::red());
    assert_eq!(rgba(o.pget(4, 0)), rgba(Color::red()));
    assert_eq!(rgba(o.pget(0, 4)), rgba(Color::red()));
    assert_eq!(rgba(o.pget(2, 2)), rgba(Color::red()));
    assert_eq!(rgba(o.pget(1, 1)), (0, 0, 0, 0));
}

#[test]
fn buffer_pcircle_filled() {
    let mut b = Buffer::new(11, 11);
    b.pcircle(true, 5, 5, 2, Color::white());
    assert_eq!(
        lit(&b),
        vec![(5, 3), (4, 4), (5, 4), (6, 4), (3, 5), (4, 5), (5, 5), (6, 5), (7, 5), (4, 6), (5, 6), (6, 6), (5, 7)]
    );
}

#[test]
fn buffer_pcircle_outline() {
    let mut b = Buffer::new(11, 11);
    b.pcircle(false, 5, 5, 2, Color::white());
    let mut expect = vec![(3, 4), (3, 5), (3, 6), (4, 3), (4, 7), (5, 3), (5, 7), (6, 3), (6, 7), (7, 4), (7, 5), (7, 6)];
    expect.sort_by_key(|p| (p.1, p.0));
    assert_eq!(lit(&b), expect);
}

#[test]
fn buffer_pimg_skips_transparent() {
    let mut img = Buffer::new(2, 2);
    img.pset(0, 0, Color::red());
    img.pset(1, 1, Color::new(0, 0, 255, 10));
    let mut b = Buffer::new(4, 4);
    b.pimg(&img, 1, 2);
    assert_eq!(lit(&b), vec![(1, 2), (2, 3)]);
    assert_eq!(rgba(b.pget(2, 3)), (0, 0, 255, 10));
}

#[test]
fn buffer_pimgrect_places_section() {
    let mut img = Buffer::new(4, 1);
    img.pset(0, 0, Color::red());
    img.pset(1, 0, Color::green());
    img.pset(2, 0, Color::blue());
    img.pset(3, 0, Color::white());
    let mut b = Buffer::new(5, 2);
    b.pimgrect(&img, 2, 1, 1, 0, 2, 1);
    assert_eq!(rgba(b.pget(2, 1)), rgba(Color::green()));
    assert_eq!(rgba(b.pget(3, 1)), rgba(Color::blue()));
    assert_eq!(lit(&b), vec![(2, 1), (3, 1)]);
}

#[test]
fn buffer_pimgrect_wrapped_positions() {
    let mut img = Buffer::new(2, 1);
    img.pset(0, 0, Color::red());
    img.pset(1, 0, Color::green());
    let mut b = Buffer::new(5, 2);
    // columns 1, 2, 3 of the section wrap to image columns 1, 0, 1 and land at
    // x + (column mod width) - rx, that is 0, -1 and 0
    b.pimgrect(&img, 0, 0, 1, 0, 3, 1);
    assert_eq!(lit(&b), vec![(0, 0)]);
    assert_eq!(rgba(b.pget(0, 0)), rgba(Color::green()));
}

#[test]
fn buffer_ptritex_samples_texture() {
    let mut tex = Buffer::new(2, 2);
    tex.clear_color(Color::cyan());
    let mut b = Buffer::new(4, 4);
    b.ptritex(0, 0, 3, 0, 0, 3, &tex);
    assert_eq!(rgba(b.pget(0, 0)), rgba(Color::cyan()));
    assert_eq!(rgba(b.pget(1, 1)), rgba(Color::cyan()));
    assert_eq!(rgba(b.pget(3, 3)), (0, 0, 0, 0));
}

#[test]
fn buffer_default_is_checkerboard() {
    let b = Buffer::default();
    assert_eq!((b.width, b.height), (32, 32));
    assert_eq!(rgba(b.pget(0, 0)), rgba(Color::black()));
    assert_eq!(rgba(b.pget(4, 0)), rgba(Color::magenta()));
    assert_eq!(rgba(b.pget(0, 4)), rgba(Color::magenta()));
    assert_eq!(rgba(b.pget(7, 7)), rgba(Color::black()));
    assert_eq!(rgba(b.pget(31, 31)), rgba(Color::black()));
}

#[test]
fn buffer_pimgrect_section_not_limited_by_target_size() {
    // the 2 by 1 section at (2, 0) of a 4 by 1 image, drawn into a 2 by 2 buffer
    let mut dst = Buffer::new(2, 2);
    let mut img = Buffer::new(4, 1);
    img.clear_color(Color::red());
    dst.pimgrect(&img, 0, 0, 2, 0, 2, 1);
    assert_eq!(rgba(dst.pget(0, 0)), rgba(Color::red()));
    assert_eq!(rgba(dst.pget(1, 0)), rgba(Color::red()));
    assert_eq!(rgba(dst.pget(0, 1)), (0, 0, 0, 0));
    assert_eq!(rgba(dst.pget(1, 1)), (0, 0, 0, 0));
}

#[test]
fn buffer_ptriangle_rows_clipped_to_height() {
    let mut b = Buffer::new(4, 2);
    b.ptriangle(true, 0, 0, 3, 0, 0, 3, Color::red());
    assert_eq!(rgba(b.pget(0, 0)), rgba(Color::red()));
    assert_eq!(rgba(b.pget(1, 1)), rgba(Color::red()));
    assert_eq!(b.color.len(), 32);
}

#[test]
fn buffer_blit_out_of_bounds_not_drawn() {
    let mut dst = Buffer::new(3, 3);
    let mut src = Buffer::new(3, 3);
    src.clear_color(Color::blue());
    // a same-size source shifted off the buffer is not drawn
    dst.blit(&src, 1, 0);
    assert!(dst.color.iter().all(|&v| v == 0));
    // a source partly off the left or top edge is not drawn either
    let mut small = Buffer::new(2, 2);
    small.clear_color(Color::blue());
    dst.blit(&small, -1, 0);
    dst.blit(&small, 0, -1);
    assert!(dst.color.iter().all(|&v| v == 0));
    dst.blit(&src, 0, 0);
    assert_eq!(dst.color, src.color);
}

#[test]
fn buffer_cline_counts_longer_distance_plus_one() {
    let mut b = Buffer::new(4, 4);
    assert_eq!(b.cline(0, 0, 3, 1), 4);
    assert_eq!(b.cline(5, -2, -1, 7), 10);
    assert_eq!(b.cline(-3, 4, 8, 4), 12);
    assert_eq!(b.color, Buffer::new(4, 4).color);
}

#[test]
fn buffer_shaders_can_run_checks_each_shader() {
    let mut b = Buffer::new(3, 3);
    assert!(b.shaders_can_run(1, 1, Color::white()));
    b.add_shader(BufferShader::new(Shader::Addition(ShaderAddition), true, 0));
    assert!(b.shaders_can_run(1, 1, Color::new(10, 20, 30, 0)));
    assert!(!b.shaders_can_run(1, 1, Color::new(10, 20, 30, 40)));
    assert!(!b.shaders_can_run(1, 1, Color::white()));
    assert!(!b.shaders_can_run(5, 7, Color::new(1, 1, 1, 1)));
    b.clear_color(Color::new(250, 0, 0, 0));
    assert!(!b.shaders_can_run(0, 0, Color::new(10, 0, 0, 0)));
    assert!(b.shaders_can_run(0, 0, Color::new(5, 0, 0, 0)));
}
