//! What the drawing operations are for, stated over all inputs: a rasterizer in opaque
//! mode tints what it stores, a multiply shader multiplies with the background, a font
//! reads each glyph from its own cell of the font image, and an outlined triangle draws
//! all three of its edges.
use vstd::prelude::*;
use crate::buffer::{BufferShader, pixel_at, shade_through};
use crate::color::{Color, mul_spec};
use crate::font::Font;
use crate::laws::law_rasterizer_pget_after_pset;
use crate::rasterizer::{PSetOp, RCanvas, RDab, op_color, bg_at, rline_points, r_clamp, rtri_dabs, to_rdabs};
use crate::shader::{Shader, ShaderMultiply, ShaderAddition, ShaderAlpha, ShaderTint, ShaderForceColor, ShaderOpaque, ShaderNoOp, bg_color};
use crate::color::{add_spec_color, blend_spec};

verus! {

/// In opaque mode a rasterizer stores an opaque pixel multiplied, channel by channel, by
/// its tint: the pixel reads back as the color times the tint, and every other pixel is
/// unchanged. On opaque colors the opaque mode and the mode that ignores alpha agree.
pub proof fn law_opaque_mode_tints(rc: RCanvas, pix: Seq<u8>, count: int, x: int, y: int, c: Color)
    requires
        pix.len() == rc.width * rc.height * 4,
        rc.op == PSetOp::Opaque,
        c.a == 255,
        rc.in_bounds(x, y),
    ensures
        pixel_at(rc.pset_spec(pix, count, (x, y, c)).0, rc.width as int, x, y) == mul_spec(c, rc.tint),
        forall|px: int, py: int|
            rc.in_bounds(px, py) && (px != x || py != y) ==> #[trigger] pixel_at(rc.pset_spec(pix, count, (x, y, c)).0, rc.width as int, px, py)
                == pixel_at(pix, rc.width as int, px, py),
        forall|bg: Color, o: u8| #[trigger] op_color(PSetOp::Opaque, bg, c, rc.tint, o) == op_color(PSetOp::NoAlpha, bg, c, rc.tint, o),
{
    law_rasterizer_pget_after_pset(rc, pix, count, (x, y, c));
    assert(op_color(PSetOp::Opaque, bg_at(pix, rc.index_of(x, y)), c, rc.tint, rc.opacity) == Some(mul_spec(c, rc.tint)));
}

/// In opaque mode a rasterizer skips a pixel that is not fully opaque: the pixels stay as
/// they were and only the call is counted.
pub proof fn law_opaque_mode_skips_translucent(rc: RCanvas, pix: Seq<u8>, count: int, x: int, y: int, c: Color)
    requires
        pix.len() == rc.width * rc.height * 4,
        rc.op == PSetOp::Opaque,
        c.a < 255,
    ensures
        rc.pset_spec(pix, count, (x, y, c)) == (pix, count + 1),
{
    law_rasterizer_pget_after_pset(rc, pix, count, (x, y, c));
}

/// A multiply shader, alone and active on a buffer, turns the pixel (x, y) of `c` into the
/// background at (x, y) multiplied, channel by channel, with `c`, at the same place.
pub proof fn law_multiply_shader(s: ShaderMultiply, order: u8, pix: Seq<u8>, width: usize, x: i32, y: i32, c: Color)
    ensures
        shade_through(seq![BufferShader { shader: Shader::Multiply(s), active: true, order }], pix, width, (x, y, c)) == (
            x,
            y,
            mul_spec(bg_color(pix, width, x as int, y as int), c),
        ),
        Shader::Multiply(s).shade_spec(pix, width, x, y, c) == Some((x, y, mul_spec(bg_color(pix, width, x as int, y as int), c))),
{
    let stack = seq![BufferShader { shader: Shader::Multiply(s), active: true, order }];
    assert(stack.drop_last() =~= Seq::<BufferShader>::empty());
    assert(stack.len() == 1);
    assert(stack.last() == BufferShader { shader: Shader::Multiply(s), active: true, order });
    assert(shade_through(stack.drop_last(), pix, width, (x, y, c)) == (x, y, c));
    assert(shade_through(stack, pix, width, (x, y, c)) == (x, y, mul_spec(bg_color(pix, width, x as int, y as int), c)));
}

/// What one active shader, alone on a buffer, makes of the pixel (x, y) of `c`: a no-op
/// keeps it; an opaque shader keeps it (and lets only opaque pixels through); a force
/// color shader replaces the color by its own; a tint shader multiplies the color by its
/// tint; an addition shader adds the background at (x, y) to it; an alpha shader blends
/// it over the background at its opacity. None of them moves the pixel, and an inactive
/// shader changes nothing.
pub proof fn law_single_shader(shader: Shader, order: u8, pix: Seq<u8>, width: usize, x: i32, y: i32, c: Color)
    ensures
        ({
            let on = shade_through(seq![BufferShader { shader, active: true, order }], pix, width, (x, y, c));
            let bg = bg_color(pix, width, x as int, y as int);
            &&& on.0 == x
            &&& on.1 == y
            &&& shader is NoOp ==> on.2 == c
            &&& shader is Opaque ==> on.2 == c
            &&& shader matches Shader::ForceColor(s) ==> on.2 == s.color
            &&& shader matches Shader::Tint(s) ==> on.2 == mul_spec(s.tint, c)
            &&& shader is Multiply ==> on.2 == mul_spec(bg, c)
            &&& shader is Addition ==> on.2 == add_spec_color(bg, c)
            &&& shader matches Shader::Alpha(s) ==> on.2 == blend_spec(c, bg, s.opacity)
        }),
        shade_through(seq![BufferShader { shader, active: false, order }], pix, width, (x, y, c)) == (x, y, c),
        shader is Opaque && c.a == 255 ==> shader.shade_spec(pix, width, x, y, c) == Some((x, y, c)),
        shader is Opaque && c.a < 255 ==> shader.shade_spec(pix, width, x, y, c) is None,
{
    let on_stack = seq![BufferShader { shader, active: true, order }];
    let off_stack = seq![BufferShader { shader, active: false, order }];
    assert(on_stack.drop_last() =~= Seq::<BufferShader>::empty());
    assert(off_stack.drop_last() =~= Seq::<BufferShader>::empty());
    assert(on_stack.last() == BufferShader { shader, active: true, order });
    assert(off_stack.last() == BufferShader { shader, active: false, order });
    assert(shade_through(on_stack.drop_last(), pix, width, (x, y, c)) == (x, y, c));
    assert(shade_through(off_stack.drop_last(), pix, width, (x, y, c)) == (x, y, c));
}

/// Glyph `j` is read from its own cell of the font image, glyphs laid out left to right
/// and top to bottom: the cell starts at a column inside the image and at a row that is a
/// multiple of the glyph height, and its column plus the image width times its row of
/// glyphs is the glyph's place `j * glyph_width` along the glyphs read in order. The cell
/// is a glyph wide and a glyph high, and is drawn at the pen position.
pub proof fn law_glyph_cell(font: Font, j: int, x: int, y: int, jx: int, jy: int)
    requires
        font.fontimg.width > 0,
        font.glyph_height > 0,
        j >= 0,
    ensures
        ({
            let k = font.glyph_call(j, x, y, jx, jy);
            let fw = font.fontimg.width as int;
            let gh = font.glyph_height as int;
            &&& 0 <= k.2 < fw
            &&& k.3 >= 0
            &&& k.3 % gh == 0
            &&& k.2 + fw * (k.3 / gh) == j * font.glyph_width
            &&& k.4 == font.glyph_width
            &&& k.5 == gh
            &&& k.0 == x + jx
            &&& k.1 == y + jy
        }),
{
    let fw = font.fontimg.width as int;
    let gh = font.glyph_height as int;
    let gw = font.glyph_width as int;
    let p = j * gw;
    assert(p >= 0) by (nonlinear_arith)
        requires
            p == j * gw,
            j >= 0,
            gw >= 0,
    ;
    vstd::arithmetic::div_mod::lemma_fundamental_div_mod(p, fw);
    let q = p / fw;
    assert(q >= 0) by (nonlinear_arith)
        requires
            p >= 0,
            fw > 0,
            q == p / fw,
    ;
    assert(q * gh >= 0) by (nonlinear_arith)
        requires
            q >= 0,
            gh > 0,
    ;
    vstd::arithmetic::div_mod::lemma_fundamental_div_mod_converse(q * gh, gh, q, 0);
    assert(fw * q == fw * (p / fw));
}

/// An outlined triangle draws all three of its edges: in opaque mode with an opaque
/// color, every point on the rasterizer of the line from corner 1 to corner 2, from
/// corner 1 to corner 3 and from corner 2 to corner 3 (each line between its corners
/// clamped to the rasterizer) reads back as the color times the tint.
pub proof fn law_triangle_outline_edges(
    rc: RCanvas,
    st: (Seq<u8>, int),
    x1: int,
    y1: int,
    x2: int,
    y2: int,
    x3: int,
    y3: int,
    c: Color,
    px: int,
    py: int,
)
    requires
        st.0.len() == rc.width * rc.height * 4,
        rc.op == PSetOp::Opaque,
        c.a == 255,
        rc.in_bounds(px, py),
        edge_point(rc, x1, y1, x2, y2, px, py) || edge_point(rc, x1, y1, x3, y3, px, py) || edge_point(rc, x2, y2, x3, y3, px, py),
    ensures
        pixel_at(rc.pset_seq(st, rtri_dabs(rc, false, x1, y1, x2, y2, x3, y3, c)).0, rc.width as int, px, py) == mul_spec(c, rc.tint),
{
    let w = rc.width as int;
    let h = rc.height as int;
    let e12 = to_rdabs(rline_points(r_clamp(x1, 0, w), r_clamp(y1, 0, h), r_clamp(x2, 0, w), r_clamp(y2, 0, h)), c);
    let e13 = to_rdabs(rline_points(r_clamp(x1, 0, w), r_clamp(y1, 0, h), r_clamp(x3, 0, w), r_clamp(y3, 0, h)), c);
    let e23 = to_rdabs(rline_points(r_clamp(x2, 0, w), r_clamp(y2, 0, h), r_clamp(x3, 0, w), r_clamp(y3, 0, h)), c);
    let ds = rtri_dabs(rc, false, x1, y1, x2, y2, x3, y3, c);
    assert(ds == e12 + e13 + e23);
    let i: int = if edge_point(rc, x1, y1, x2, y2, px, py) {
        let t = choose|t: int| 0 <= t < rline_points(r_clamp(x1, 0, w), r_clamp(y1, 0, h), r_clamp(x2, 0, w), r_clamp(y2, 0, h)).len()
            && rline_points(r_clamp(x1, 0, w), r_clamp(y1, 0, h), r_clamp(x2, 0, w), r_clamp(y2, 0, h))[t] == (px, py);
        assert(ds[t] == e12[t]);
        t
    } else if edge_point(rc, x1, y1, x3, y3, px, py) {
        let t = choose|t: int| 0 <= t < rline_points(r_clamp(x1, 0, w), r_clamp(y1, 0, h), r_clamp(x3, 0, w), r_clamp(y3, 0, h)).len()
            && rline_points(r_clamp(x1, 0, w), r_clamp(y1, 0, h), r_clamp(x3, 0, w), r_clamp(y3, 0, h))[t] == (px, py);
        assert(ds[e12.len() + t] == e13[t]);
        e12.len() + t
    } else {
        let t = choose|t: int| 0 <= t < rline_points(r_clamp(x2, 0, w), r_clamp(y2, 0, h), r_clamp(x3, 0, w), r_clamp(y3, 0, h)).len()
            && rline_points(r_clamp(x2, 0, w), r_clamp(y2, 0, h), r_clamp(x3, 0, w), r_clamp(y3, 0, h))[t] == (px, py);
        assert(ds[e12.len() + e13.len() + t] == e23[t]);
        e12.len() + e13.len() + t
    };
    assert(0 <= i < ds.len() && ds[i] == (px, py, c));
    assert(all_colored(ds, c));
    lemma_opaque_seq_pixel(rc, st, ds, c, px, py);
}

/// The point (px, py) lies on the line from (xa, ya) to (xb, yb) as a rasterizer draws
/// it, the corners clamped to the rasterizer.
pub open spec fn edge_point(rc: RCanvas, xa: int, ya: int, xb: int, yb: int, px: int, py: int) -> bool {
    let w = rc.width as int;
    let h = rc.height as int;
    rline_points(r_clamp(xa, 0, w), r_clamp(ya, 0, h), r_clamp(xb, 0, w), r_clamp(yb, 0, h)).contains((px, py))
}

/// Every dab has the color `c`.
pub open spec fn all_colored(ds: Seq<RDab>, c: Color) -> bool {
    forall|i: int| 0 <= i < ds.len() ==> (#[trigger] ds[i]).2 == c
}

/// Setting dabs of one opaque color in opaque mode leaves a pixel that one of them lands
/// on holding the color times the tint, and any other pixel as it was.
proof fn lemma_opaque_seq_pixel(rc: RCanvas, st: (Seq<u8>, int), ds: Seq<RDab>, c: Color, px: int, py: int)
    requires
        st.0.len() == rc.width * rc.height * 4,
        rc.op == PSetOp::Opaque,
        c.a == 255,
        rc.in_bounds(px, py),
        all_colored(ds, c),
    ensures
        rc.pset_seq(st, ds).0.len() == st.0.len(),
        pixel_at(rc.pset_seq(st, ds).0, rc.width as int, px, py) == if exists|i: int|
            0 <= i < ds.len() && (#[trigger] ds[i]).0 == px && ds[i].1 == py {
            mul_spec(c, rc.tint)
        } else {
            pixel_at(st.0, rc.width as int, px, py)
        },
    decreases ds.len(),
{
    if ds.len() > 0 {
        let q = ds.drop_last();
        let d = ds.last();
        assert(all_colored(q, c)) by {
            assert forall|i: int| 0 <= i < q.len() implies (#[trigger] q[i]).2 == c by {
                assert(q[i] == ds[i]);
            }
        }
        lemma_opaque_seq_pixel(rc, st, q, c, px, py);
        let prev = rc.pset_seq(st, q);
        assert(d == ds[ds.len() - 1]);
        assert(d.2 == c);
        law_rasterizer_pget_after_pset(rc, prev.0, prev.1, d);
        if rc.in_bounds(d.0, d.1) {
            assert(op_color(rc.op, bg_at(prev.0, rc.index_of(d.0, d.1)), d.2, rc.tint, rc.opacity) == Some(mul_spec(c, rc.tint)));
        }
        if exists|i: int| 0 <= i < ds.len() && (#[trigger] ds[i]).0 == px && ds[i].1 == py {
            if !(d.0 == px && d.1 == py) {
                let i = choose|i: int| 0 <= i < ds.len() && (#[trigger] ds[i]).0 == px && ds[i].1 == py;
                assert(i < ds.len() - 1);
                assert(q[i] == ds[i]);
            }
        } else {
            assert forall|i: int| 0 <= i < q.len() implies !((#[trigger] q[i]).0 == px && q[i].1 == py) by {
                assert(q[i] == ds[i]);
            }
        }
    }
}

} // verus!
