//! Per-pixel shaders. A shader sees the pixel that is about to be drawn (position and
//! color) and the buffer it is drawn into, and either replaces the pixel or drops it.
use vstd::prelude::*;
use crate::color::{Color, add_fits, add_spec_color, blend_defined, blend_spec, mul_spec};
use crate::math::fits_i32;

verus! {

/// What a shader is told about the pixel that is about to be drawn.
#[derive(Debug, Clone, Copy)]
pub struct ShaderParams {
    pub x: i32,
    pub y: i32,
    pub color: Color,
    pub p_i32: [i32; 8],
    pub p_color: [Color; 8],
}

impl ShaderParams {
    pub fn new(x: i32, y: i32, color: Color) -> (p: ShaderParams)
        ensures
            p.x == x,
            p.y == y,
            p.color == color,
            forall|i: int| 0 <= i < 8 ==> p.p_i32@[i] == 0,
            forall|i: int| 0 <= i < 8 ==> p.p_color@[i] == Color::clear_spec(),
    {
        ShaderParams {
            x,
            y,
            color,
            p_i32: [0, 0, 0, 0, 0, 0, 0, 0],
            p_color: [
                Color::clear(),
                Color::clear(),
                Color::clear(),
                Color::clear(),
                Color::clear(),
                Color::clear(),
                Color::clear(),
                Color::clear(),
            ],
        }
    }
}

impl Color {
    /// The fully transparent black color.
    pub open spec fn clear_spec() -> Color {
        Color { r: 0, g: 0, b: 0, a: 0 }
    }

    /// Opaque red.
    pub open spec fn red_spec() -> Color {
        Color { r: 255, g: 0, b: 0, a: 255 }
    }
}

/// The byte index that a shader reads the background pixel at (x, y) from, in a buffer
/// `width` pixels wide: `(y * width + x) * 4`, computed on `i32`.
pub open spec fn bg_index(width: usize, x: int, y: int) -> int {
    (y * ((width as i32) as int) + x) * 4
}

/// A shader can read the background pixel at (x, y): the index arithmetic stays within
/// `i32` and the three color bytes lie inside the buffer.
pub open spec fn bg_readable(buffer: Seq<u8>, width: usize, x: int, y: int) -> bool {
    let w = (width as i32) as int;
    &&& fits_i32(y * w)
    &&& fits_i32(y * w + x)
    &&& fits_i32((y * w + x) * 4)
    &&& 0 <= bg_index(width, x, y)
    &&& bg_index(width, x, y) + 2 < buffer.len()
}

/// The opaque background color at (x, y): its three color bytes and alpha 255.
pub open spec fn bg_color(buffer: Seq<u8>, width: usize, x: int, y: int) -> Color {
    let i = bg_index(width, x, y);
    Color { r: buffer[i], g: buffer[i + 1], b: buffer[i + 2], a: 255 }
}

/// Whether a shader can read the background pixel at (x, y).
fn bg_readable_at(buffer: &[u8], width: usize, x: i32, y: i32) -> (b: bool)
    ensures
        b == bg_readable(buffer@, width, x as int, y as int),
{
    let w32: i32 = #[verifier::truncate] (width as i32);
    let w: i64 = w32 as i64;
    proof {
        assert(-0x4000_0000_0000_0000 <= (y as i64) * w <= 0x4000_0000_0000_0000) by (nonlinear_arith)
            requires
                -0x8000_0000 <= y <= 0x7fff_ffff,
                -0x8000_0000 <= w <= 0x7fff_ffff,
        ;
    }
    let row: i64 = (y as i64) * w;
    if row < i32::MIN as i64 || row > i32::MAX as i64 {
        return false;
    }
    let at: i64 = row + x as i64;
    if at < i32::MIN as i64 || at > i32::MAX as i64 {
        return false;
    }
    let idx: i64 = at * 4;
    if idx < i32::MIN as i64 || idx > i32::MAX as i64 {
        return false;
    }
    idx >= 0 && (idx as u64) + 2 < buffer.len() as u64
}

/// Reads the opaque background color at (x, y).
fn read_bg(buffer: &[u8], width: usize, x: i32, y: i32) -> (c: Color)
    requires
        bg_readable(buffer@, width, x as int, y as int),
    ensures
        c == bg_color(buffer@, width, x as int, y as int),
{
    let idx: usize = ((y * (width as i32) + x) * 4) as usize;
    Color::new(buffer[idx], buffer[idx + 1], buffer[idx + 2], 255)
}

/// Passes every pixel through unchanged.
#[derive(Debug, Clone, Copy)]
pub struct ShaderNoOp;

impl ShaderNoOp {
    pub fn shade(&self, buffer: &[u8], width: usize, height: usize, params: ShaderParams) -> (out: Option<(i32, i32, Color)>)
        ensures
            out == Some((params.x, params.y, params.color)),
    {
        Some((params.x, params.y, params.color))
    }

    pub fn reset(&mut self)
        ensures
            *final(self) == *old(self),
    {
    }
}

/// Drops every pixel that is not fully opaque.
#[derive(Debug, Clone, Copy)]
pub struct ShaderOpaque;

impl ShaderOpaque {
    pub fn shade(&self, buffer: &[u8], width: usize, height: usize, params: ShaderParams) -> (out: Option<(i32, i32, Color)>)
        ensures
            out == (if params.color.a < 255 {
                None
            } else {
                Some((params.x, params.y, params.color))
            }),
    {
        if params.color.a < 255 {
            return None;
        } else {
            return Some((params.x, params.y, params.color))
        }
    }

    pub fn reset(&mut self)
        ensures
            *final(self) == *old(self),
    {
    }
}

/// Replaces the color of every pixel by a fixed color.
#[derive(Debug, Clone, Copy)]
pub struct ShaderForceColor {
    pub color: Color,
}

impl ShaderForceColor {
    pub fn shade(&self, buffer: &[u8], width: usize, height: usize, params: ShaderParams) -> (out: Option<(i32, i32, Color)>)
        ensures
            out == Some((params.x, params.y, self.color)),
    {
        Some((params.x, params.y, self.color))
    }

    /// Sets the forced color to transparent black.
    pub fn reset(&mut self)
        ensures
            final(self).color == Color::clear_spec(),
    {
        self.color = Color::clear();
    }
}

/// Multiplies every pixel with the opaque background pixel under it.
#[derive(Debug, Clone, Copy)]
pub struct ShaderMultiply;

impl ShaderMultiply {
    pub fn shade(&self, buffer: &[u8], width: usize, height: usize, params: ShaderParams) -> (out: Option<(i32, i32, Color)>)
        requires
            bg_readable(buffer@, width, params.x as int, params.y as int),
        ensures
            out == Some((params.x, params.y, mul_spec(bg_color(buffer@, width, params.x as int, params.y as int), params.color))),
    {
        let bg = read_bg(buffer, width, params.x, params.y);
        Some((params.x, params.y, bg * params.color))
    }

    pub fn reset(&mut self)
        ensures
            *final(self) == *old(self),
    {
    }
}

/// Multiplies every pixel with a fixed tint.
#[derive(Debug, Clone, Copy)]
pub struct ShaderTint {
    pub tint: Color,
}

impl ShaderTint {
    pub fn shade(&self, buffer: &[u8], width: usize, height: usize, params: ShaderParams) -> (out: Option<(i32, i32, Color)>)
        ensures
            out == Some((params.x, params.y, mul_spec(self.tint, params.color))),
    {
        Some((params.x, params.y, self.tint * params.color))
    }

    pub fn reset(&mut self)
        ensures
            *final(self) == *old(self),
    {
    }
}

/// Adds every pixel to the opaque background pixel under it.
#[derive(Debug, Clone, Copy)]
pub struct ShaderAddition;

impl ShaderAddition {
    pub fn shade(&self, buffer: &[u8], width: usize, height: usize, params: ShaderParams) -> (out: Option<(i32, i32, Color)>)
        requires
            bg_readable(buffer@, width, params.x as int, params.y as int),
            add_fits(bg_color(buffer@, width, params.x as int, params.y as int), params.color),
        ensures
            out == Some((params.x, params.y, add_spec_color(bg_color(buffer@, width, params.x as int, params.y as int), params.color))),
    {
        let bg = read_bg(buffer, width, params.x, params.y);
        Some((params.x, params.y, bg + params.color))
    }

    pub fn reset(&mut self)
        ensures
            *final(self) == *old(self),
    {
    }
}

/// Blends every pixel over the opaque background pixel under it with a fixed opacity.
#[derive(Debug, Clone, Copy)]
pub struct ShaderAlpha {
    pub opacity: u8,
}

impl ShaderAlpha {
    pub fn shade(&self, buffer: &[u8], width: usize, height: usize, params: ShaderParams) -> (out: Option<(i32, i32, Color)>)
        requires
            bg_readable(buffer@, width, params.x as int, params.y as int),
            blend_defined(params.color, self.opacity),
        ensures
            out == Some((params.x, params.y, blend_spec(params.color, bg_color(buffer@, width, params.x as int, params.y as int), self.opacity))),
    {
        let bg = read_bg(buffer, width, params.x, params.y);
        let c = Color::blend_fast(params.color, bg, self.opacity);
        Some((params.x, params.y, c))
    }

    /// Sets the opacity back to fully opaque.
    pub fn reset(&mut self)
        ensures
            final(self).opacity == 255,
    {
        self.opacity = 255;
    }
}

/// One of the shaders above.
#[derive(Debug, Clone, Copy)]
pub enum Shader {
    NoOp(ShaderNoOp),
    Opaque(ShaderOpaque),
    ForceColor(ShaderForceColor),
    Multiply(ShaderMultiply),
    Tint(ShaderTint),
    Addition(ShaderAddition),
    Alpha(ShaderAlpha),
}

impl Shader {
    /// The shader reads the background pixel under the incoming one.
    pub open spec fn samples_background(self) -> bool {
        match self {
            Shader::Multiply(_) | Shader::Addition(_) | Shader::Alpha(_) => true,
            _ => false,
        }
    }

    /// The shader can run on this pixel without failing.
    pub open spec fn shade_req(self, buffer: Seq<u8>, width: usize, x: i32, y: i32, color: Color) -> bool {
        match self {
            Shader::Multiply(_) => bg_readable(buffer, width, x as int, y as int),
            Shader::Addition(_) => {
                &&& bg_readable(buffer, width, x as int, y as int)
                &&& add_fits(bg_color(buffer, width, x as int, y as int), color)
            },
            Shader::Alpha(s) => {
                &&& bg_readable(buffer, width, x as int, y as int)
                &&& blend_defined(color, s.opacity)
            },
            _ => true,
        }
    }

    /// What the shader returns for this pixel.
    pub open spec fn shade_spec(self, buffer: Seq<u8>, width: usize, x: i32, y: i32, color: Color) -> Option<(i32, i32, Color)> {
        let bg = bg_color(buffer, width, x as int, y as int);
        match self {
            Shader::NoOp(_) => Some((x, y, color)),
            Shader::Opaque(_) => if color.a < 255 {
                None
            } else {
                Some((x, y, color))
            },
            Shader::ForceColor(s) => Some((x, y, s.color)),
            Shader::Multiply(_) => Some((x, y, mul_spec(bg, color))),
            Shader::Tint(s) => Some((x, y, mul_spec(s.tint, color))),
            Shader::Addition(_) => Some((x, y, add_spec_color(bg, color))),
            Shader::Alpha(s) => Some((x, y, blend_spec(color, bg, s.opacity))),
        }
    }

    /// Whether the shader can run on this pixel without failing.
    pub fn can_shade(&self, buffer: &[u8], width: usize, x: i32, y: i32, color: Color) -> (b: bool)
        ensures
            b == self.shade_req(buffer@, width, x, y, color),
    {
        match self {
            Shader::Multiply(_) => bg_readable_at(buffer, width, x, y),
            Shader::Addition(_) => {
                if !bg_readable_at(buffer, width, x, y) {
                    return false;
                }
                let bg: Color = read_bg(buffer, width, x, y);
                (bg.r as u16) + (color.r as u16) <= 255 && (bg.g as u16) + (color.g as u16) <= 255 && (bg.b as u16) + (color.b as u16)
                    <= 255 && (bg.a as u16) + (color.a as u16) <= 255
            },
            Shader::Alpha(s) => bg_readable_at(buffer, width, x, y) && (color.a as u16) + (s.opacity as u16) >= 255,
            _ => true,
        }
    }

    /// Runs the shader on one pixel of `buffer`.
    pub fn shade(&self, buffer: &[u8], width: usize, height: usize, params: ShaderParams) -> (out: Option<(i32, i32, Color)>)
        requires
            self.shade_req(buffer@, width, params.x, params.y, params.color),
        ensures
            out == self.shade_spec(buffer@, width, params.x, params.y, params.color),
    {
        match self {
            Shader::NoOp(s) => s.shade(buffer, width, height, params),
            Shader::Opaque(s) => s.shade(buffer, width, height, params),
            Shader::ForceColor(s) => s.shade(buffer, width, height, params),
            Shader::Multiply(s) => s.shade(buffer, width, height, params),
            Shader::Tint(s) => s.shade(buffer, width, height, params),
            Shader::Addition(s) => s.shade(buffer, width, height, params),
            Shader::Alpha(s) => s.shade(buffer, width, height, params),
        }
    }

    /// Puts the shader back into its starting state.
    pub fn reset(&mut self)
        ensures
            match *old(self) {
                Shader::ForceColor(_) => *final(self) == Shader::ForceColor(ShaderForceColor { color: Color::clear_spec() }),
                Shader::Alpha(_) => *final(self) == Shader::Alpha(ShaderAlpha { opacity: 255 }),
                _ => *final(self) == *old(self),
            },
    {
        match self {
            Shader::ForceColor(s) => {
                *self = Shader::ForceColor(ShaderForceColor { color: Color::clear() });
            },
            Shader::Alpha(s) => {
                *self = Shader::Alpha(ShaderAlpha { opacity: 255 });
            },
            _ => {},
        }
    }
}

} // verus!
