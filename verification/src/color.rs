//! 32-bit color with one byte per channel: red, green, blue and alpha.
use vstd::prelude::*;

verus! {

/// 32-bit Color using 1-byte channels for Red, Green, Blue, and Alpha.
#[derive(Debug, Clone, Copy, PartialEq, Eq, Structural)]
pub struct Color {
    pub r: u8,
    pub g: u8,
    pub b: u8,
    pub a: u8,
}

/// The channel that the fast alpha blend gives for a source channel `s`, a background
/// channel `d` and the blend weight `alpha`: `(s * alpha + d * (255 - alpha)) / 256`.
pub open spec fn blend_channel(s: int, d: int, alpha: int) -> int {
    (s * alpha + d * (255 - alpha)) / 256
}

/// The weight that the fast alpha blend gives the source color.
pub open spec fn blend_weight(src_a: int, opacity: int) -> int {
    src_a - (255 - opacity)
}

/// The fast alpha blend is defined (does not underflow) for these arguments.
pub open spec fn blend_defined(src: Color, opacity: u8) -> bool {
    src.a + opacity >= 255
}

/// The result of the fast alpha blend: each color channel is weighted by the source alpha
/// lowered by the missing opacity, and the result is fully opaque.
pub open spec fn blend_spec(src: Color, dst: Color, opacity: u8) -> Color {
    let alpha = blend_weight(src.a as int, opacity as int);
    Color {
        r: blend_channel(src.r as int, dst.r as int, alpha) as u8,
        g: blend_channel(src.g as int, dst.g as int, alpha) as u8,
        b: blend_channel(src.b as int, dst.b as int, alpha) as u8,
        a: 255,
    }
}

/// One channel of a color product: `(x * y + 255) / 256`.
pub open spec fn mul_channel(x: int, y: int) -> int {
    (x * y + 255) / 256
}

/// The product of two colors: each color channel is scaled, the alpha of the left side stays.
pub open spec fn mul_spec(lhs: Color, rhs: Color) -> Color {
    Color {
        r: mul_channel(lhs.r as int, rhs.r as int) as u8,
        g: mul_channel(lhs.g as int, rhs.g as int) as u8,
        b: mul_channel(lhs.b as int, rhs.b as int) as u8,
        a: lhs.a,
    }
}

/// Adding two colors channel by channel does not overflow.
pub open spec fn add_fits(lhs: Color, rhs: Color) -> bool {
    &&& lhs.r + rhs.r <= 255
    &&& lhs.g + rhs.g <= 255
    &&& lhs.b + rhs.b <= 255
    &&& lhs.a + rhs.a <= 255
}

/// The channel-wise sum of two colors.
pub open spec fn add_spec_color(lhs: Color, rhs: Color) -> Color {
    Color {
        r: (lhs.r + rhs.r) as u8,
        g: (lhs.g + rhs.g) as u8,
        b: (lhs.b + rhs.b) as u8,
        a: (lhs.a + rhs.a) as u8,
    }
}

/// Subtracting two colors channel by channel does not underflow.
pub open spec fn sub_fits(lhs: Color, rhs: Color) -> bool {
    &&& lhs.r >= rhs.r
    &&& lhs.g >= rhs.g
    &&& lhs.b >= rhs.b
    &&& lhs.a >= rhs.a
}

/// The channel-wise difference of two colors.
pub open spec fn sub_spec_color(lhs: Color, rhs: Color) -> Color {
    Color {
        r: (lhs.r - rhs.r) as u8,
        g: (lhs.g - rhs.g) as u8,
        b: (lhs.b - rhs.b) as u8,
        a: (lhs.a - rhs.a) as u8,
    }
}

/// Every channel of the divisor is nonzero.
pub open spec fn div_fits(rhs: Color) -> bool {
    rhs.r != 0 && rhs.g != 0 && rhs.b != 0 && rhs.a != 0
}

/// The channel-wise quotient of two colors.
pub open spec fn div_spec_color(lhs: Color, rhs: Color) -> Color {
    Color { r: lhs.r / rhs.r, g: lhs.g / rhs.g, b: lhs.b / rhs.b, a: lhs.a / rhs.a }
}

/// The byte-inverted color; alpha is kept.
pub open spec fn inverted_spec(c: Color) -> Color {
    Color { r: (255 - c.r) as u8, g: (255 - c.g) as u8, b: (255 - c.b) as u8, a: c.a }
}

proof fn lemma_blend_channel_bounds(s: u32, d: u32, alpha: u32)
    requires
        s <= 255,
        d <= 255,
        alpha <= 255,
    ensures
        s * alpha + d * (255 - alpha) <= 65025,
        (s * alpha + d * (255 - alpha)) / 256 <= 254,
{
    assert(s * alpha <= 255 * alpha) by (nonlinear_arith)
        requires
            s <= 255,
    ;
    assert(d * (255 - alpha) <= 255 * (255 - alpha)) by (nonlinear_arith)
        requires
            d <= 255,
            alpha <= 255,
    ;
}

/// Computes one channel of the fast blend.
fn blend_one(s: u8, d: u8, alpha: u32) -> (out: u8)
    requires
        alpha <= 255,
    ensures
        out == blend_channel(s as int, d as int, alpha as int),
{
    let s32: u32 = s as u32;
    let d32: u32 = d as u32;
    proof {
        lemma_blend_channel_bounds(s32, d32, alpha);
    }
    let sum: u32 = (s32 * alpha) + (d32 * (255 - alpha));
    let shifted: u32 = sum >> 8;
    assert(shifted == sum / 256) by (bit_vector)
        requires
            shifted == sum >> 8,
    ;
    shifted as u8
}

/// Computes one channel of a color product.
fn mul_one(x: u8, y: u8) -> (out: u8)
    ensures
        out == mul_channel(x as int, y as int),
{
    let x32: u32 = x as u32;
    let y32: u32 = y as u32;
    assert(x32 * y32 <= 65025) by (nonlinear_arith)
        requires
            x32 <= 255,
            y32 <= 255,
    ;
    let sum: u32 = x32 * y32 + 255;
    let shifted: u32 = sum >> 8;
    assert(shifted == sum / 256) by (bit_vector)
        requires
            shifted == sum >> 8,
    ;
    shifted as u8
}

impl Color {
    /// Makes a color from its four channels.
    pub fn new(r: u8, g: u8, b: u8, a: u8) -> (c: Color)
        ensures
            c == (Color { r, g, b, a }),
    {
        Color { r, g, b, a }
    }

    /// Faster but less accurate alpha-blending function. The source channels are weighted
    /// by `src.a - (255 - opacity)` and the background by the rest; the result is opaque.
    pub fn blend_fast(src: Color, dst: Color, opacity: u8) -> (c: Color)
        requires
            blend_defined(src, opacity),
        ensures
            c == blend_spec(src, dst, opacity),
    {
        let alpha: u32 = (src.a - (255 - opacity)) as u32;
        let r = blend_one(src.r, dst.r, alpha);
        let g = blend_one(src.g, dst.g, alpha);
        let b = blend_one(src.b, dst.b, alpha);
        Color { r, g, b, a: 255 }
    }

    /// Byte inverted copy of the color.
    pub fn inverted(&self) -> (c: Color)
        ensures
            c == inverted_spec(*self),
    {
        Color { r: 255 - self.r, g: 255 - self.g, b: 255 - self.b, a: self.a }
    }

    pub fn clear() -> (c: Color)
        ensures
            c == (Color { r: 0, g: 0, b: 0, a: 0 }),
    {
        Color { r: 0, g: 0, b: 0, a: 0 }
    }

    pub fn black() -> (c: Color)
        ensures
            c == (Color { r: 0, g: 0, b: 0, a: 255 }),
    {
        Color { r: 0, g: 0, b: 0, a: 255 }
    }

    pub fn white() -> (c: Color)
        ensures
            c == (Color { r: 255, g: 255, b: 255, a: 255 }),
    {
        Color { r: 255, g: 255, b: 255, a: 255 }
    }

    pub fn red() -> (c: Color)
        ensures
            c == (Color { r: 255, g: 0, b: 0, a: 255 }),
    {
        Color { r: 255, g: 0, b: 0, a: 255 }
    }

    pub fn green() -> (c: Color)
        ensures
            c == (Color { r: 0, g: 255, b: 0, a: 255 }),
    {
        Color { r: 0, g: 255, b: 0, a: 255 }
    }

    pub fn blue() -> (c: Color)
        ensures
            c == (Color { r: 0, g: 0, b: 255, a: 255 }),
    {
        Color { r: 0, g: 0, b: 255, a: 255 }
    }

    pub fn yellow() -> (c: Color)
        ensures
            c == (Color { r: 255, g: 255, b: 0, a: 255 }),
    {
        Color { r: 255, g: 255, b: 0, a: 255 }
    }

    pub fn cyan() -> (c: Color)
        ensures
            c == (Color { r: 0, g: 255, b: 255, a: 255 }),
    {
        Color { r: 0, g: 255, b: 255, a: 255 }
    }

    pub fn magenta() -> (c: Color)
        ensures
            c == (Color { r: 255, g: 0, b: 255, a: 255 }),
    {
        Color { r: 255, g: 0, b: 255, a: 255 }
    }

    pub fn orange() -> (c: Color)
        ensures
            c == (Color { r: 255, g: 128, b: 0, a: 255 }),
    {
        Color { r: 255, g: 128, b: 0, a: 255 }
    }

    /// Adds `rhs` to this color in place, channel by channel.
    pub fn add_assign(&mut self, rhs: Color)
        requires
            add_fits(*old(self), rhs),
        ensures
            *final(self) == add_spec_color(*old(self), rhs),
    {
        *self = Color::new(self.r + rhs.r, self.g + rhs.g, self.b + rhs.b, self.a + rhs.a);
    }

    /// Subtracts `rhs` from this color in place, channel by channel.
    pub fn sub_assign(&mut self, rhs: Color)
        requires
            sub_fits(*old(self), rhs),
        ensures
            *final(self) == sub_spec_color(*old(self), rhs),
    {
        *self = Color::new(self.r - rhs.r, self.g - rhs.g, self.b - rhs.b, self.a - rhs.a);
    }

    /// Multiplies this color by `rhs` in place; the alpha channel is kept.
    pub fn mul_assign(&mut self, rhs: Color)
        ensures
            *final(self) == mul_spec(*old(self), rhs),
    {
        let r = mul_one(self.r, rhs.r);
        let g = mul_one(self.g, rhs.g);
        let b = mul_one(self.b, rhs.b);
        *self = Color::new(r, g, b, self.a);
    }

    /// Divides this color by `rhs` in place, channel by channel.
    pub fn div_assign(&mut self, rhs: Color)
        requires
            div_fits(rhs),
        ensures
            *final(self) == div_spec_color(*old(self), rhs),
    {
        *self = Color::new(self.r / rhs.r, self.g / rhs.g, self.b / rhs.b, self.a / rhs.a);
    }
}

impl core::ops::Add for Color {
    type Output = Color;

    fn add(self, rhs: Color) -> (c: Color)
        ensures
            c == add_spec_color(self, rhs),
    {
        Color::new(self.r + rhs.r, self.g + rhs.g, self.b + rhs.b, self.a + rhs.a)
    }
}

impl vstd::std_specs::ops::AddSpecImpl for Color {
    open spec fn obeys_add_spec() -> bool {
        true
    }

    open spec fn add_req(self, rhs: Color) -> bool {
        add_fits(self, rhs)
    }

    open spec fn add_spec(self, rhs: Color) -> Color {
        add_spec_color(self, rhs)
    }
}

impl core::ops::Sub for Color {
    type Output = Color;

    fn sub(self, rhs: Color) -> (c: Color)
        ensures
            c == sub_spec_color(self, rhs),
    {
        Color::new(self.r - rhs.r, self.g - rhs.g, self.b - rhs.b, self.a - rhs.a)
    }
}

impl vstd::std_specs::ops::SubSpecImpl for Color {
    open spec fn obeys_sub_spec() -> bool {
        true
    }

    open spec fn sub_req(self, rhs: Color) -> bool {
        sub_fits(self, rhs)
    }

    open spec fn sub_spec(self, rhs: Color) -> Color {
        sub_spec_color(self, rhs)
    }
}

impl core::ops::Mul for Color {
    type Output = Color;

    fn mul(self, rhs: Color) -> (c: Color)
        ensures
            c == mul_spec(self, rhs),
    {
        let r = mul_one(self.r, rhs.r);
        let g = mul_one(self.g, rhs.g);
        let b = mul_one(self.b, rhs.b);
        Color::new(r, g, b, self.a)
    }
}

impl vstd::std_specs::ops::MulSpecImpl for Color {
    open spec fn obeys_mul_spec() -> bool {
        true
    }

    open spec fn mul_req(self, rhs: Color) -> bool {
        true
    }

    open spec fn mul_spec(self, rhs: Color) -> Color {
        mul_spec(self, rhs)
    }
}

impl core::ops::Div for Color {
    type Output = Color;

    fn div(self, rhs: Color) -> (c: Color)
        ensures
            c == div_spec_color(self, rhs),
    {
        Color::new(self.r / rhs.r, self.g / rhs.g, self.b / rhs.b, self.a / rhs.a)
    }
}

impl vstd::std_specs::ops::DivSpecImpl for Color {
    open spec fn obeys_div_spec() -> bool {
        true
    }

    open spec fn div_req(self, rhs: Color) -> bool {
        div_fits(rhs)
    }

    open spec fn div_spec(self, rhs: Color) -> Color {
        div_spec_color(self, rhs)
    }
}

} // verus!
