use aftershock::color::Color;

fn rgba(c: Color) -> (u8, u8, u8, u8) {
    (c.r, c.g, c.b, c.a)
}

#[test]
fn color_new_keeps_channels() {
    assert_eq!(rgba(Color::new(1, 2, 3, 4)), (1, 2, 3, 4));
}

#[test]
fn color_constants() {
    assert_eq!(rgba(Color::clear()), (0, 0, 0, 0));
    assert_eq!(rgba(Color::black()), (0, 0, 0, 255));
    assert_eq!(rgba(Color::white()), (255, 255, 255, 255));
    assert_eq!(rgba(Color::red()), (255, 0, 0, 255));
    assert_eq!(rgba(Color::green()), (0, 255, 0, 255));
    assert_eq!(rgba(Color::blue()), (0, 0, 255, 255));
    assert_eq!(rgba(Color::yellow()), (255, 255, 0, 255));
    assert_eq!(rgba(Color::cyan()), (0, 255, 255, 255));
    assert_eq!(rgba(Color::magenta()), (255, 0, 255, 255));
    assert_eq!(rgba(Color::orange()), (255, 128, 0, 255));
}

#[test]
fn blend_fast_opaque_source() {
    let c = Color::blend_fast(Color::new(200, 100, 50, 255), Color::new(0, 0, 0, 255), 255);
    assert_eq!(rgba(c), (199, 99, 49, 255));
}

#[test]
fn blend_fast_half_alpha() {
    let c = Color::blend_fast(Color::new(255, 0, 0, 128), Color::new(0, 0, 255, 255), 255);
    assert_eq!(rgba(c), (127, 0, 126, 255));
}

#[test]
fn blend_fast_lowered_opacity() {
    // alpha weight is 255 - (255 - 200) = 200
    let c = Color::blend_fast(Color::new(100, 100, 100, 255), Color::new(200, 0, 50, 255), 200);
    assert_eq!(rgba(c), (121, 78, 88, 255));
}

#[test]
fn inverted_keeps_alpha() {
    assert_eq!(rgba(Color::new(10, 20, 30, 40).inverted()), (245, 235, 225, 40));
}

#[test]
fn inverted_twice_is_identity() {
    let c = Color::new(3, 141, 250, 77);
    assert_eq!(rgba(c.inverted().inverted()), rgba(c));
}

#[test]
fn color_add_sub() {
    let a = Color::new(10, 20, 30, 40);
    let b = Color::new(1, 2, 3, 4);
    assert_eq!(rgba(a + b), (11, 22, 33, 44));
    assert_eq!(rgba(a - b), (9, 18, 27, 36));
    assert_eq!(rgba((a + b) - b), rgba(a));
}

#[test]
fn color_mul_rounds_up() {
    let a = Color::new(100, 200, 50, 77);
    let b = Color::new(128, 255, 0, 9);
    assert_eq!(rgba(a * b), (50, 200, 0, 77));
}

#[test]
fn color_mul_white_is_identity() {
    let c = Color::new(0, 1, 254, 13);
    assert_eq!(rgba(c * Color::white()), rgba(c));
}

#[test]
fn color_div() {
    let a = Color::new(100, 200, 50, 77);
    let b = Color::new(3, 10, 7, 2);
    assert_eq!(rgba(a / b), (33, 20, 7, 38));
}

#[test]
fn color_assign_ops() {
    let mut c = Color::new(10, 20, 30, 40);
    c.add_assign(Color::new(1, 1, 1, 1));
    assert_eq!(rgba(c), (11, 21, 31, 41));
    c.sub_assign(Color::new(11, 1, 1, 1));
    assert_eq!(rgba(c), (0, 20, 30, 40));
    c.mul_assign(Color::new(255, 128, 0, 0));
    assert_eq!(rgba(c), (0, 10, 0, 40));
    c.div_assign(Color::new(1, 3, 1, 7));
    assert_eq!(rgba(c), (0, 3, 0, 5));
}
