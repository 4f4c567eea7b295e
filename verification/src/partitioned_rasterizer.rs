//! A rasterizer split into partitions, so that large drawing operations can be done part
//! by part (the parts can be drawn on different threads) and copied back into the whole.
use vstd::prelude::*;
use crate::color::Color;
use crate::compose::{blit_copy_spec, lemma_blit_copy_pixel, lemma_byte_decompose};
use crate::math::fits_i32;
use crate::partitioned_buffer::{BoundingParallelThreshold, PartitionScheme, PartitionedBuffer, cpu_count, scheme_for_spec, scheme_grid, cell_len, cell_bytes, crop_cell, lemma_cell_bytes, lemma_cell_inside};
use crate::rasterizer::{
    DrawMode, PSetOp, Rasterizer, mode_op, rline_dabs, rrect_dabs, rcircle_dabs, rdisc_fits, rcircle_outline_fits,
    rimg_dabs, rimg_rect_dabs, rimg_rect_fits, rimg_sized, RCanvas, RDab, lemma_pset_seq_concat,
    rsolid, op_color, bg_at, r_clamp, rimg_fill, rpixel, rcircle_box, rdisc_fill,
};
use crate::buffer::{filled_with, pixel_at, lemma_index_in_bounds};
use crate::laws::{lemma_write_pixel_at, lemma_cell_find};
use crate::region::{region_dabs, row_dabs};

verus! {

/// `p` is a fresh partition: a blank rasterizer of `cw` by `ch` pixels placed at (ox, oy),
/// drawing opaquely with a white tint at full opacity, with nothing counted yet.
pub open spec fn fresh_rpartition(p: Rasterizer, cw: int, ch: int, ox: int, oy: int) -> bool {
    &&& p.wf()
    &&& p.width == cw
    &&& p.height == ch
    &&& p.offset_x == ox
    &&& p.offset_y == oy
    &&& p.color@ == Seq::new((cw * ch * 4) as nat, |i: int| 0u8)
    &&& p.draw_op() == PSetOp::Opaque
    &&& p.draw_mode == DrawMode::Opaque
    &&& p.tint == (Color { r: 255, g: 255, b: 255, a: 255 })
    &&& p.opacity == 255
    &&& p.drawn_pixels_since_clear == 0
    &&& !p.saving_next_frame()
}

/// The partitions of a `width` by `height` rasterizer split into `nx` columns and `ny`
/// rows, in row-major order: the cell in column x and row y is placed at
/// `(x * (width / nx), y * (height / ny))` and is `width / nx` by `height / ny` pixels,
/// but for the last column and the last row, which reach the right and bottom edges.
pub open spec fn grid_rpartitions(parts: Seq<Rasterizer>, width: int, height: int, nx: int, ny: int) -> bool {
    &&& parts.len() == nx * ny
    &&& forall|k: int|
        0 <= k < parts.len() ==> fresh_rpartition(
            #[trigger] parts[k],
            cell_len(width, nx, k % nx),
            cell_len(height, ny, k / nx),
            (k % nx) * (width / nx),
            (k / nx) * (height / ny),
        )
}

/// `p` is cell number `k` of a `width` by `height` rasterizer split into `nx` columns and
/// `ny` rows, whatever pixels it holds.
pub open spec fn grid_rcell(p: Rasterizer, width: int, height: int, nx: int, ny: int, k: int) -> bool {
    &&& p.wf()
    &&& p.width == cell_len(width, nx, k % nx)
    &&& p.height == cell_len(height, ny, k / nx)
    &&& p.offset_x == (k % nx) * (width / nx)
    &&& p.offset_y == (k / nx) * (height / ny)
}

/// The pixels that the partition `p` covers in a rasterizer `w` pixels wide holding `pix`:
/// the pixels a partition holds once it has been refreshed from the whole rasterizer.
pub open spec fn rcell_pixels(pix: Seq<u8>, w: int, p: Rasterizer) -> Seq<u8> {
    cell_bytes(pix, w, p.offset_x as int, p.offset_y as int, p.width as int, p.height as int)
}

/// The state of partition `p` once refreshed from a rasterizer `w` pixels wide holding
/// `pix`: the pixels of its cell, and its own count.
pub open spec fn refreshed(pix: Seq<u8>, w: int, p: Rasterizer) -> (Seq<u8>, int) {
    (rcell_pixels(pix, w, p), p.drawn_pixels_since_clear as int)
}

/// The bytes `pix` of a `w` by `h` rasterizer after `blit` of `src` at (x, y): the source
/// is copied in where it fits (whole, for a source of the same size at the origin), and
/// nothing happens where it does not.
pub open spec fn rblit_pix(pix: Seq<u8>, w: int, h: int, src: Rasterizer, x: int, y: int) -> Seq<u8> {
    if !(0 <= x && 0 <= y && x + src.width <= w && y + src.height <= h) {
        pix
    } else if w == src.width && h == src.height {
        src.color@
    } else {
        blit_copy_spec(pix, w, src.color@, src.width as int, src.height as int, x, y)
    }
}

/// The bytes `pix` of a `w` by `h` rasterizer after each partition of `parts` in turn is
/// copied back into it at its offset.
pub open spec fn rblit_back(pix: Seq<u8>, w: int, h: int, parts: Seq<Rasterizer>) -> Seq<u8>
    decreases parts.len(),
{
    if parts.len() == 0 {
        pix
    } else {
        let p = parts.last();
        rblit_pix(rblit_back(pix, w, h, parts.drop_last()), w, h, p, p.offset_x as int, p.offset_y as int)
    }
}

/// The number of pixels the partitions have drawn since they were cleared, together.
pub open spec fn rcount_sum(parts: Seq<Rasterizer>) -> int
    decreases parts.len(),
{
    if parts.len() == 0 {
        0
    } else {
        rcount_sum(parts.drop_last()) + parts.last().drawn_pixels_since_clear
    }
}

/// `a` is `b` cleared: every pixel transparent black, the count and the saving of the next
/// frame reset, the rest as it was.
pub open spec fn rcleared(a: Rasterizer, b: Rasterizer) -> bool {
    &&& a.wf()
    &&& a.rcanvas() == b.rcanvas()
    &&& a.offset_x == b.offset_x
    &&& a.offset_y == b.offset_y
    &&& a.draw_mode == b.draw_mode
    &&& a.next_frame_folder() == b.next_frame_folder()
    &&& a.color@ == Seq::new(b.color@.len(), |i: int| 0u8)
    &&& a.drawn_pixels_since_clear == 0
    &&& !a.saving_next_frame()
}

/// `a` is `b` cleared to `color`: every pixel that color, the count and the saving of the
/// next frame reset, the rest as it was.
pub open spec fn rcleared_to(a: Rasterizer, b: Rasterizer, color: Color) -> bool {
    &&& a.wf()
    &&& a.rcanvas() == b.rcanvas()
    &&& a.offset_x == b.offset_x
    &&& a.offset_y == b.offset_y
    &&& a.draw_mode == b.draw_mode
    &&& a.next_frame_folder() == b.next_frame_folder()
    &&& a.color@.len() == b.color@.len()
    &&& filled_with(a.color@, color)
    &&& a.drawn_pixels_since_clear == 0
    &&& !a.saving_next_frame()
}

/// `a` is `b` with the drawing mode `mode` and the operation it selects.
pub open spec fn rmode_set(a: Rasterizer, b: Rasterizer, mode: DrawMode) -> bool {
    &&& a.draw_op() == mode_op(mode)
    &&& a.draw_mode == mode
    &&& a.color@ == b.color@
    &&& a.width == b.width
    &&& a.height == b.height
    &&& a.tint == b.tint
    &&& a.opacity == b.opacity
    &&& a.offset_x == b.offset_x
    &&& a.offset_y == b.offset_y
    &&& a.drawn_pixels_since_clear == b.drawn_pixels_since_clear
    &&& a.saving_next_frame() == b.saving_next_frame()
    &&& a.next_frame_folder() == b.next_frame_folder()
}

/// The count of the first `i` partitions is the count of the first `i - 1` and that of
/// partition `i - 1`; it never exceeds the count of all of them.
pub proof fn lemma_rcount_sum_prefix(parts: Seq<Rasterizer>, i: int)
    requires
        1 <= i <= parts.len(),
    ensures
        rcount_sum(parts.take(i)) == rcount_sum(parts.take(i - 1)) + parts[i - 1].drawn_pixels_since_clear,
        rcount_sum(parts.take(i)) <= rcount_sum(parts),
    decreases parts.len() - i,
{
    assert(parts.take(i).drop_last() =~= parts.take(i - 1));
    if i < parts.len() {
        lemma_rcount_sum_prefix(parts, i + 1);
    } else {
        assert(parts.take(i) =~= parts);
    }
}

/// The threshold in pixels: 0, 8192, 16384, 32768 and 65536.
pub open spec fn threshold_pixels(t: BoundingParallelThreshold) -> int {
    match t {
        BoundingParallelThreshold::Always => 0,
        BoundingParallelThreshold::High => 8192,
        BoundingParallelThreshold::Medium => 16384,
        BoundingParallelThreshold::Low => 32768,
        BoundingParallelThreshold::VeryLow => 65536,
    }
}

/// `prectangle` on the canvas `rc` from the state `st` does not fail.
pub open spec fn rrect_req_on(rc: RCanvas, st: (Seq<u8>, int), filled: bool, x: int, y: int, w: int, h: int, c: Color) -> bool {
    rc.pset_seq_req(st, rrect_dabs(rc, filled, x, y, w, h, c))
}

/// `prectangle` into `p` does not fail.
pub open spec fn rrect_req(p: Rasterizer, filled: bool, x: int, y: int, w: int, h: int, c: Color) -> bool {
    rrect_req_on(p.rcanvas(), p.state(), filled, x, y, w, h, c)
}

/// The pixels and count after `prectangle` on the canvas `rc` from the state `st`.
pub open spec fn rrect_result_on(rc: RCanvas, st: (Seq<u8>, int), filled: bool, x: int, y: int, w: int, h: int, c: Color) -> (Seq<u8>, int) {
    rc.pset_seq(st, rrect_dabs(rc, filled, x, y, w, h, c))
}

/// The pixels and count of `p` after `prectangle`.
pub open spec fn rrect_result(p: Rasterizer, filled: bool, x: int, y: int, w: int, h: int, c: Color) -> (Seq<u8>, int) {
    rrect_result_on(p.rcanvas(), p.state(), filled, x, y, w, h, c)
}

/// `pcircle` on the canvas `rc` from the state `st` does not fail.
pub open spec fn rcircle_req_on(rc: RCanvas, st: (Seq<u8>, int), filled: bool, xc: int, yc: int, r: int, c: Color) -> bool {
    &&& filled ==> rdisc_fits(rc, xc, yc, r)
    &&& !filled ==> rcircle_outline_fits(xc, yc, r)
    &&& rc.pset_seq_req(st, rcircle_dabs(rc, filled, xc, yc, r, c))
}

/// `pcircle` into `p` does not fail.
pub open spec fn rcircle_req(p: Rasterizer, filled: bool, xc: int, yc: int, r: int, c: Color) -> bool {
    rcircle_req_on(p.rcanvas(), p.state(), filled, xc, yc, r, c)
}

/// The pixels and count after `pcircle` on the canvas `rc` from the state `st`.
pub open spec fn rcircle_result_on(rc: RCanvas, st: (Seq<u8>, int), filled: bool, xc: int, yc: int, r: int, c: Color) -> (Seq<u8>, int) {
    rc.pset_seq(st, rcircle_dabs(rc, filled, xc, yc, r, c))
}

/// The pixels and count of `p` after `pcircle`.
pub open spec fn rcircle_result(p: Rasterizer, filled: bool, xc: int, yc: int, r: int, c: Color) -> (Seq<u8>, int) {
    rcircle_result_on(p.rcanvas(), p.state(), filled, xc, yc, r, c)
}

/// `pimg` of `img` on the canvas `rc` from the state `st` does not fail.
pub open spec fn rimg_req_on(rc: RCanvas, st: (Seq<u8>, int), img: Rasterizer, x: int, y: int) -> bool {
    rc.pset_seq_req(st, rimg_dabs(rc, img, x, y))
}

/// `pimg` of `img` into `p` does not fail.
pub open spec fn rimg_req(p: Rasterizer, img: Rasterizer, x: int, y: int) -> bool {
    rimg_req_on(p.rcanvas(), p.state(), img, x, y)
}

/// The pixels and count after `pimg` of `img` on the canvas `rc` from the state `st`.
pub open spec fn rimg_result_on(rc: RCanvas, st: (Seq<u8>, int), img: Rasterizer, x: int, y: int) -> (Seq<u8>, int) {
    rc.pset_seq(st, rimg_dabs(rc, img, x, y))
}

/// The pixels and count of `p` after `pimg` of `img`.
pub open spec fn rimg_result(p: Rasterizer, img: Rasterizer, x: int, y: int) -> (Seq<u8>, int) {
    rimg_result_on(p.rcanvas(), p.state(), img, x, y)
}

/// `pimgrect` of `img` on the canvas `rc` from the state `st` does not fail.
pub open spec fn rimgrect_req_on(rc: RCanvas, st: (Seq<u8>, int), img: Rasterizer, x: int, y: int, rx: int, ry: int, rw: int, rh: int) -> bool {
    &&& rimg_rect_fits(rc, img, x, y, rx, ry, rw, rh)
    &&& rc.pset_seq_req(st, rimg_rect_dabs(rc, img, x, y, rx, ry, rw, rh))
}

/// `pimgrect` of `img` into `p` does not fail.
pub open spec fn rimgrect_req(p: Rasterizer, img: Rasterizer, x: int, y: int, rx: int, ry: int, rw: int, rh: int) -> bool {
    rimgrect_req_on(p.rcanvas(), p.state(), img, x, y, rx, ry, rw, rh)
}

/// The pixels and count after `pimgrect` of `img` on the canvas `rc` from the state `st`.
pub open spec fn rimgrect_result_on(rc: RCanvas, st: (Seq<u8>, int), img: Rasterizer, x: int, y: int, rx: int, ry: int, rw: int, rh: int) -> (Seq<u8>, int) {
    rc.pset_seq(st, rimg_rect_dabs(rc, img, x, y, rx, ry, rw, rh))
}

/// The pixels and count of `p` after `pimgrect` of `img`.
pub open spec fn rimgrect_result(p: Rasterizer, img: Rasterizer, x: int, y: int, rx: int, ry: int, rw: int, rh: int) -> (Seq<u8>, int) {
    rimgrect_result_on(p.rcanvas(), p.state(), img, x, y, rx, ry, rw, rh)
}

/// `prectangle` on a partitioned rasterizer draws part by part: a filled rectangle of at
/// least the threshold's pixels.
pub open spec fn parallel_rrect(pr: PartitionedRasterizer, filled: bool, width: int, height: int) -> bool {
    filled && width * height >= threshold_pixels(pr.threshold)
}

/// `pimg` and `pimgrect` on a partitioned rasterizer draw part by part: an image of at
/// least the threshold's pixels.
pub open spec fn parallel_rimage(pr: PartitionedRasterizer, image: Rasterizer) -> bool {
    image.width * image.height >= threshold_pixels(pr.threshold)
}

/// The dabs of the outlines that `draw_debug_view` draws on the canvas `rc`: for each
/// partition, its top edge and then its left edge, in magenta.
pub open spec fn rdebug_dabs(rc: RCanvas, parts: Seq<Rasterizer>) -> Seq<RDab>
    decreases parts.len(),
{
    if parts.len() == 0 {
        Seq::empty()
    } else {
        let p = parts.last();
        let c = Color { r: 255, g: 0, b: 255, a: 255 };
        rdebug_dabs(rc, parts.drop_last()) + rline_dabs(rc, p.offset_x as int, p.offset_y as int, p.offset_x + p.width, p.offset_y as int, c)
            + rline_dabs(rc, p.offset_x as int, p.offset_y as int, p.offset_x as int, p.offset_y + p.height, c)
    }
}

/// The debug outlines of the first `i` partitions come first among those of all of them.
pub proof fn lemma_rdebug_dabs_prefix(rc: RCanvas, parts: Seq<Rasterizer>, i: int)
    requires
        0 <= i <= parts.len(),
    ensures
        rdebug_dabs(rc, parts) == rdebug_dabs(rc, parts.take(i)) + rdebug_dabs(rc, parts).subrange(
            rdebug_dabs(rc, parts.take(i)).len() as int,
            rdebug_dabs(rc, parts).len() as int,
        ),
        rdebug_dabs(rc, parts.take(i)).len() <= rdebug_dabs(rc, parts).len(),
    decreases parts.len() - i,
{
    let all = rdebug_dabs(rc, parts);
    if i == parts.len() {
        assert(parts.take(i) =~= parts);
        assert(all =~= rdebug_dabs(rc, parts.take(i)) + all.subrange(rdebug_dabs(rc, parts.take(i)).len() as int, all.len() as int));
    } else {
        lemma_rdebug_dabs_prefix(rc, parts, i + 1);
        let t = parts.take(i + 1);
        assert(t.drop_last() =~= parts.take(i));
        let d_i = rdebug_dabs(rc, parts.take(i));
        let d_i1 = rdebug_dabs(rc, t);
        assert(d_i1 == d_i + (d_i1.subrange(d_i.len() as int, d_i1.len() as int))) by {
            assert(d_i1 =~= d_i + d_i1.subrange(d_i.len() as int, d_i1.len() as int));
        }
        assert(all =~= d_i + all.subrange(d_i.len() as int, all.len() as int));
    }
}

/// A rasterizer that allows for parallel rendering by partitioning the image into smaller
/// pieces, usually by how many cores the current CPU has.
pub struct PartitionedRasterizer {
    pub rasterizer: Rasterizer,
    pub partitions: Vec<Rasterizer>,
    pub scheme: PartitionScheme,
    pub threshold: BoundingParallelThreshold,
}

impl PartitionedRasterizer {
    /// The whole rasterizer and every partition are well formed.
    pub open spec fn wf(self) -> bool {
        &&& self.rasterizer.wf()
        &&& forall|k: int| 0 <= k < self.partitions@.len() ==> (#[trigger] self.partitions@[k]).wf()
    }

    /// The partitions are the grid of the current scheme over the whole rasterizer.
    pub open spec fn partitioned(self) -> bool {
        grid_rpartitions(
            self.partitions@,
            self.rasterizer.width as int,
            self.rasterizer.height as int,
            scheme_grid(self.scheme).0,
            scheme_grid(self.scheme).1,
        )
    }

    /// Splits the rasterizer into `nx` by `ny` fresh partitions, replacing the old ones.
    fn partition_grid(&mut self, nx: usize, ny: usize)
        requires
            old(self).rasterizer.wf(),
            1 <= nx <= 8,
            1 <= ny <= 8,
        ensures
            final(self).rasterizer == old(self).rasterizer,
            final(self).scheme == old(self).scheme,
            final(self).threshold == old(self).threshold,
            final(self).wf(),
            grid_rpartitions(final(self).partitions@, old(self).rasterizer.width as int, old(self).rasterizer.height as int, nx as int, ny as int),
    {
        self.partitions.clear();
        let cell_x: usize = self.rasterizer.width / nx;
        let cell_y: usize = self.rasterizer.height / ny;
        let ghost w: int = self.rasterizer.width as int;
        let ghost h: int = self.rasterizer.height as int;
        let mut y: usize = 0;
        while y < ny
            invariant
                self.rasterizer == old(self).rasterizer,
                self.scheme == old(self).scheme,
                self.threshold == old(self).threshold,
                w == self.rasterizer.width,
                h == self.rasterizer.height,
                self.rasterizer.wf(),
                cell_x == w / nx as int,
                cell_y == h / ny as int,
                
                1 <= nx <= 8,
                1 <= ny <= 8,
                y <= ny,
                self.partitions@.len() == y * nx,
                forall|k: int| 0 <= k < self.partitions@.len() ==> (#[trigger] self.partitions@[k]).wf(),
                forall|k: int|
                    0 <= k < self.partitions@.len() ==> fresh_rpartition(
                        #[trigger] self.partitions@[k],
                        cell_len(w, nx as int, k % nx as int),
                        cell_len(h, ny as int, k / nx as int),
                        (k % nx as int) * cell_x,
                        (k / nx as int) * cell_y,
                    ),
            decreases ny - y,
        {
            let mut x: usize = 0;
            while x < nx
                invariant
                    self.rasterizer == old(self).rasterizer,
                    self.scheme == old(self).scheme,
                    self.threshold == old(self).threshold,
                    w == self.rasterizer.width,
                    h == self.rasterizer.height,
                    self.rasterizer.wf(),
                    cell_x == w / nx as int,
                    cell_y == h / ny as int,
                    
                    1 <= nx <= 8,
                    1 <= ny <= 8,
                    y < ny,
                    x <= nx,
                    self.partitions@.len() == y * nx + x,
                    forall|k: int| 0 <= k < self.partitions@.len() ==> (#[trigger] self.partitions@[k]).wf(),
                    forall|k: int|
                        0 <= k < self.partitions@.len() ==> fresh_rpartition(
                            #[trigger] self.partitions@[k],
                            cell_len(w, nx as int, k % nx as int),
                            cell_len(h, ny as int, k / nx as int),
                            (k % nx as int) * cell_x,
                            (k / nx as int) * cell_y,
                        ),
                decreases nx - x,
            {
                proof {
                    assert(cell_x * nx <= w && cell_y * ny <= h) by (nonlinear_arith)
                        requires
                            cell_x == w / nx as int,
                            cell_y == h / ny as int,
                            nx >= 1,
                            ny >= 1,
                            w >= 0,
                            h >= 0,
                    ;
                    assert(cell_x * x <= cell_x * nx && cell_x * (nx - 1) <= cell_x * nx && cell_x * (nx - 1) >= 0) by (nonlinear_arith)
                        requires
                            x < nx,
                            nx >= 1,
                    ;
                    assert(cell_y * y <= cell_y * ny && cell_y * (ny - 1) <= cell_y * ny && cell_y * (ny - 1) >= 0) by (nonlinear_arith)
                        requires
                            y < ny,
                            ny >= 1,
                    ;
                }
                let pw: usize = if x + 1 == nx {
                    self.rasterizer.width - cell_x * (nx - 1)
                } else {
                    cell_x
                };
                let ph: usize = if y + 1 == ny {
                    self.rasterizer.height - cell_y * (ny - 1)
                } else {
                    cell_y
                };
                proof {
                    assert(cell_x <= w && cell_y <= h) by (nonlinear_arith)
                        requires
                            cell_x * nx <= w,
                            cell_y * ny <= h,
                            nx >= 1,
                            ny >= 1,
                    ;
                    assert(pw * ph * 4 <= w * h * 4) by (nonlinear_arith)
                        requires
                            0 <= pw <= w,
                            0 <= ph <= h,
                    ;
                    assert(self.rasterizer.color@.len() == w * h * 4);
                    assert(self.rasterizer.color.len() <= usize::MAX);
                }
                let mut r: Rasterizer = Rasterizer::new(pw, ph);
                r.offset_x = cell_x * x;
                r.offset_y = cell_y * y;
                proof {
                    let k = (y * nx + x) as int;
                    assert(k % nx as int == x && k / nx as int == y) by (nonlinear_arith)
                        requires
                            k == y * nx + x,
                            0 <= x < nx,
                            0 <= y,
                    ;
                    assert(cell_x * x == x * cell_x) by (nonlinear_arith);
                    assert(cell_y * y == y * cell_y) by (nonlinear_arith);
                    assert(pw == cell_len(w, nx as int, x as int));
                    assert(ph == cell_len(h, ny as int, y as int));
                }
                self.partitions.push(r);
                x = x + 1;
            }
            proof {
                assert(y * nx + nx == (y + 1) * nx) by (nonlinear_arith);
            }
            y = y + 1;
        }
        assert(ny * nx == nx * ny) by (nonlinear_arith);
    }

    fn partition_full(&mut self)
        requires
            old(self).rasterizer.wf(),
        ensures
            final(self).rasterizer == old(self).rasterizer,
            final(self).scheme == old(self).scheme,
            final(self).threshold == old(self).threshold,
            final(self).wf(),
            grid_rpartitions(final(self).partitions@, old(self).rasterizer.width as int, old(self).rasterizer.height as int, 1, 1),
    {
        self.partition_grid(1, 1);
    }

    fn partition_split_vertical(&mut self)
        requires
            old(self).rasterizer.wf(),
        ensures
            final(self).rasterizer == old(self).rasterizer,
            final(self).scheme == old(self).scheme,
            final(self).threshold == old(self).threshold,
            final(self).wf(),
            grid_rpartitions(final(self).partitions@, old(self).rasterizer.width as int, old(self).rasterizer.height as int, 2, 1),
    {
        self.partition_grid(2, 1);
    }

    fn partition_split_horizontal(&mut self)
        requires
            old(self).rasterizer.wf(),
        ensures
            final(self).rasterizer == old(self).rasterizer,
            final(self).scheme == old(self).scheme,
            final(self).threshold == old(self).threshold,
            final(self).wf(),
            grid_rpartitions(final(self).partitions@, old(self).rasterizer.width as int, old(self).rasterizer.height as int, 1, 2),
    {
        self.partition_grid(1, 2);
    }

    /// Replaces the partitions by the grid of the current scheme, all blank.
    fn generate_partitions(&mut self)
        requires
            old(self).rasterizer.wf(),
        ensures
            final(self).rasterizer == old(self).rasterizer,
            final(self).scheme == old(self).scheme,
            final(self).threshold == old(self).threshold,
            final(self).wf(),
            final(self).partitioned(),
    {
        match self.scheme {
            PartitionScheme::Full => self.partition_full(),
            PartitionScheme::Split1x2 => self.partition_split_vertical(),
            PartitionScheme::Split2x1 => self.partition_split_horizontal(),
            PartitionScheme::Split2x2 => self.partition_grid(2, 2),
            PartitionScheme::Split3x3 => self.partition_grid(3, 3),
            PartitionScheme::Split3x2 => self.partition_grid(3, 2),
            PartitionScheme::Split3x1 => self.partition_grid(3, 1),
            PartitionScheme::Split4x4 => self.partition_grid(4, 4),
            PartitionScheme::Split5x5 => self.partition_grid(5, 5),
            PartitionScheme::Split8x8 => self.partition_grid(8, 8),
        }
    }

    /// Chooses the partition scheme for `cores` cores, or for the number of CPUs of this
    /// machine when `cores` is 0, and splits the rasterizer accordingly.
    pub fn set_core_limit(&mut self, cores: usize)
        requires
            old(self).rasterizer.wf(),
        ensures
            final(self).rasterizer == old(self).rasterizer,
            final(self).threshold == old(self).threshold,
            final(self).wf(),
            final(self).partitioned(),
            cores != 0 ==> final(self).scheme == scheme_for_spec(cores as int, old(self).rasterizer.width as int, old(self).rasterizer.height as int),
            cores == 0 ==> exists|n: int| n >= 1 && final(self).scheme == scheme_for_spec(n, old(self).rasterizer.width as int, old(self).rasterizer.height as int),
    {
        let cpu_count: usize = if cores == 0 {
            cpu_count()
        } else {
            cores
        };
        self.scheme = PartitionedBuffer::scheme_for(cpu_count, self.rasterizer.width, self.rasterizer.height);
        self.generate_partitions();
    }

    /// The number of pixels the whole rasterizer and all partitions have drawn since they
    /// were cleared.
    pub fn get_pixels_since_clear(&self) -> (total: u64)
        requires
            self.rasterizer.drawn_pixels_since_clear + rcount_sum(self.partitions@) <= u64::MAX,
        ensures
            total == self.rasterizer.drawn_pixels_since_clear + rcount_sum(self.partitions@),
    {
        let mut total: u64 = 0;
        total = total + self.rasterizer.drawn_pixels_since_clear;
        let n: usize = self.partitions.len();
        let mut i: usize = 0;
        while i < n
            invariant
                n == self.partitions@.len(),
                i <= n,
                self.rasterizer.drawn_pixels_since_clear + rcount_sum(self.partitions@) <= u64::MAX,
                total == self.rasterizer.drawn_pixels_since_clear + rcount_sum(self.partitions@.take(i as int)),
            decreases n - i,
        {
            proof {
                assert(self.partitions@.take(i + 1).drop_last() =~= self.partitions@.take(i as int));
                lemma_rcount_sum_prefix(self.partitions@, i + 1);
            }
            total = total + self.partitions[i].drawn_pixels_since_clear;
            i = i + 1;
        }
        proof {
            assert(self.partitions@.take(n as int) =~= self.partitions@);
        }
        total
    }

    /// Clears the whole rasterizer and every partition to transparent black.
    pub fn clear(&mut self)
        requires
            old(self).wf(),
        ensures
            final(self).wf(),
            final(self).scheme == old(self).scheme,
            final(self).threshold == old(self).threshold,
            rcleared(final(self).rasterizer, old(self).rasterizer),
            final(self).partitions@.len() == old(self).partitions@.len(),
            forall|k: int| 0 <= k < old(self).partitions@.len() ==> rcleared(#[trigger] final(self).partitions@[k], old(self).partitions@[k]),
    {
        self.rasterizer.clear();
        let n: usize = self.partitions.len();
        let mut i: usize = 0;
        while i < n
            invariant
                self.wf(),
                self.scheme == old(self).scheme,
                self.threshold == old(self).threshold,
                rcleared(self.rasterizer, old(self).rasterizer),
                n == old(self).partitions@.len(),
                self.partitions@.len() == n,
                i <= n,
                forall|k: int| 0 <= k < i ==> rcleared(#[trigger] self.partitions@[k], old(self).partitions@[k]),
                forall|k: int| i <= k < n ==> #[trigger] self.partitions@[k] == old(self).partitions@[k],
            decreases n - i,
        {
            self.partitions[i].clear();
            i = i + 1;
        }
    }

    /// Clears the whole rasterizer and every partition to a color.
    pub fn clear_color(&mut self, color: Color)
        requires
            old(self).wf(),
        ensures
            final(self).wf(),
            final(self).scheme == old(self).scheme,
            final(self).threshold == old(self).threshold,
            rcleared_to(final(self).rasterizer, old(self).rasterizer, color),
            final(self).partitions@.len() == old(self).partitions@.len(),
            forall|k: int|
                0 <= k < old(self).partitions@.len() ==> rcleared_to(#[trigger] final(self).partitions@[k], old(self).partitions@[k], color),
    {
        self.rasterizer.clear_color(color);
        let n: usize = self.partitions.len();
        let mut i: usize = 0;
        while i < n
            invariant
                self.wf(),
                self.scheme == old(self).scheme,
                self.threshold == old(self).threshold,
                rcleared_to(self.rasterizer, old(self).rasterizer, color),
                n == old(self).partitions@.len(),
                self.partitions@.len() == n,
                i <= n,
                forall|k: int| 0 <= k < i ==> rcleared_to(#[trigger] self.partitions@[k], old(self).partitions@[k], color),
                forall|k: int| i <= k < n ==> #[trigger] self.partitions@[k] == old(self).partitions@[k],
            decreases n - i,
        {
            self.partitions[i].clear_color(color);
            i = i + 1;
        }
    }

    /// Sets the drawing mode of the whole rasterizer and of every partition.
    pub fn set_draw_mode(&mut self, mode: DrawMode)
        requires
            old(self).wf(),
        ensures
            final(self).wf(),
            final(self).scheme == old(self).scheme,
            final(self).threshold == old(self).threshold,
            rmode_set(final(self).rasterizer, old(self).rasterizer, mode),
            final(self).partitions@.len() == old(self).partitions@.len(),
            forall|k: int| 0 <= k < old(self).partitions@.len() ==> rmode_set(#[trigger] final(self).partitions@[k], old(self).partitions@[k], mode),
    {
        self.rasterizer.set_draw_mode(mode);
        let n: usize = self.partitions.len();
        let mut i: usize = 0;
        while i < n
            invariant
                self.wf(),
                self.scheme == old(self).scheme,
                self.threshold == old(self).threshold,
                rmode_set(self.rasterizer, old(self).rasterizer, mode),
                n == old(self).partitions@.len(),
                self.partitions@.len() == n,
                i <= n,
                forall|k: int| 0 <= k < i ==> rmode_set(#[trigger] self.partitions@[k], old(self).partitions@[k], mode),
                forall|k: int| i <= k < n ==> #[trigger] self.partitions@[k] == old(self).partitions@[k],
            decreases n - i,
        {
            self.partitions[i].set_draw_mode(mode);
            i = i + 1;
        }
    }

    /// Sets the tint of the whole rasterizer and of every partition.
    pub fn set_tint(&mut self, color: Color)
        requires
            old(self).wf(),
        ensures
            final(self).wf(),
            final(self).scheme == old(self).scheme,
            final(self).threshold == old(self).threshold,
            final(self).rasterizer == (Rasterizer { tint: color, ..old(self).rasterizer }),
            final(self).partitions@.len() == old(self).partitions@.len(),
            forall|k: int|
                0 <= k < old(self).partitions@.len() ==> #[trigger] final(self).partitions@[k] == (Rasterizer {
                    tint: color,
                    ..old(self).partitions@[k]
                }),
    {
        self.rasterizer.tint = color;
        let n: usize = self.partitions.len();
        let mut i: usize = 0;
        while i < n
            invariant
                self.wf(),
                self.scheme == old(self).scheme,
                self.threshold == old(self).threshold,
                self.rasterizer == (Rasterizer { tint: color, ..old(self).rasterizer }),
                n == old(self).partitions@.len(),
                self.partitions@.len() == n,
                i <= n,
                forall|k: int| 0 <= k < i ==> #[trigger] self.partitions@[k] == (Rasterizer { tint: color, ..old(self).partitions@[k] }),
                forall|k: int| i <= k < n ==> #[trigger] self.partitions@[k] == old(self).partitions@[k],
            decreases n - i,
        {
            self.partitions[i].tint = color;
            i = i + 1;
        }
    }

    /// Sets the opacity of the whole rasterizer and of every partition.
    pub fn set_opacity(&mut self, opacity: u8)
        requires
            old(self).wf(),
        ensures
            final(self).wf(),
            final(self).scheme == old(self).scheme,
            final(self).threshold == old(self).threshold,
            final(self).rasterizer == (Rasterizer { opacity: opacity, ..old(self).rasterizer }),
            final(self).partitions@.len() == old(self).partitions@.len(),
            forall|k: int|
                0 <= k < old(self).partitions@.len() ==> #[trigger] final(self).partitions@[k] == (Rasterizer {
                    opacity: opacity,
                    ..old(self).partitions@[k]
                }),
    {
        self.rasterizer.opacity = opacity;
        let n: usize = self.partitions.len();
        let mut i: usize = 0;
        while i < n
            invariant
                self.wf(),
                self.scheme == old(self).scheme,
                self.threshold == old(self).threshold,
                self.rasterizer == (Rasterizer { opacity: opacity, ..old(self).rasterizer }),
                n == old(self).partitions@.len(),
                self.partitions@.len() == n,
                i <= n,
                forall|k: int| 0 <= k < i ==> #[trigger] self.partitions@[k] == (Rasterizer { opacity: opacity, ..old(self).partitions@[k] }),
                forall|k: int| i <= k < n ==> #[trigger] self.partitions@[k] == old(self).partitions@[k],
            decreases n - i,
        {
            self.partitions[i].opacity = opacity;
            i = i + 1;
        }
    }

    /// Clears the whole rasterizer, changes its size and splits it again with the current
    /// scheme.
    pub fn resize(&mut self, width: usize, height: usize)
        requires
            width * height * 4 <= usize::MAX,
        ensures
            final(self).wf(),
            final(self).partitioned(),
            final(self).scheme == old(self).scheme,
            final(self).threshold == old(self).threshold,
            final(self).rasterizer.width == width,
            final(self).rasterizer.height == height,
            final(self).rasterizer.color@ == Seq::new((width * height * 4) as nat, |i: int| 0u8),
            final(self).rasterizer.draw_op() == old(self).rasterizer.draw_op(),
            final(self).rasterizer.tint == old(self).rasterizer.tint,
            final(self).rasterizer.opacity == old(self).rasterizer.opacity,
            final(self).rasterizer.draw_mode == old(self).rasterizer.draw_mode,
            final(self).rasterizer.offset_x == old(self).rasterizer.offset_x,
            final(self).rasterizer.offset_y == old(self).rasterizer.offset_y,
            final(self).rasterizer.drawn_pixels_since_clear == old(self).rasterizer.drawn_pixels_since_clear,
            final(self).rasterizer.saving_next_frame() == old(self).rasterizer.saving_next_frame(),
            final(self).rasterizer.next_frame_folder() == old(self).rasterizer.next_frame_folder(),
    {
        self.rasterizer.resize(width, height);
        self.generate_partitions();
    }

    /// Copies `image` into the whole rasterizer, as `Rasterizer::blit` does.
    pub fn blit(&mut self, image: &Rasterizer, x: i32, y: i32)
        requires
            old(self).rasterizer.wf(),
            image.wf(),
            x >= 0 ==> x + image.width <= usize::MAX,
            y >= 0 ==> y + image.height <= usize::MAX,
            !(old(self).rasterizer.width == image.width && old(self).rasterizer.height == image.height) && 0 <= x && 0 <= y && x
                + image.width <= old(self).rasterizer.width && y + image.height <= old(self).rasterizer.height ==> image.width > 0,
        ensures
            final(self).rasterizer.wf(),
            final(self).rasterizer.same_setup(old(self).rasterizer),
            final(self).rasterizer.drawn_pixels_since_clear == old(self).rasterizer.drawn_pixels_since_clear,
            final(self).rasterizer.color@ == rblit_pix(
                old(self).rasterizer.color@,
                old(self).rasterizer.width as int,
                old(self).rasterizer.height as int,
                *image,
                x as int,
                y as int,
            ),
            final(self).partitions == old(self).partitions,
            final(self).scheme == old(self).scheme,
            final(self).threshold == old(self).threshold,
    {
        self.rasterizer.blit(image, x as i64, y as i64);
    }

    /// Draws a pixel into the whole rasterizer with `Rasterizer::pset`.
    pub fn pset(&mut self, x: i32, y: i32, color: Color)
        requires
            old(self).rasterizer.wf(),
            old(self).rasterizer.rcanvas().pset_req(old(self).rasterizer.color@, old(self).rasterizer.drawn_pixels_since_clear as int, (x as int, y as int, color)),
        ensures
            final(self).rasterizer.wf(),
            final(self).rasterizer.same_setup(old(self).rasterizer),
            final(self).rasterizer.state() == old(self).rasterizer.rcanvas().pset_spec(old(self).rasterizer.color@, old(self).rasterizer.drawn_pixels_since_clear as int, (x as int, y as int, color)),
            final(self).partitions == old(self).partitions,
            final(self).scheme == old(self).scheme,
            final(self).threshold == old(self).threshold,
    {
        self.rasterizer.pset(x as i64, y as i64, color);
    }

    /// Reads a pixel of the whole rasterizer with `Rasterizer::pget` and drops it: nothing
    /// changes and nothing is returned.
    pub fn pget(&mut self, x: i32, y: i32)
        requires
            old(self).rasterizer.wf(),
            old(self).rasterizer.width <= i64::MAX,
            old(self).rasterizer.height <= i64::MAX,
            old(self).rasterizer.width * old(self).rasterizer.height > 0,
            crate::rasterizer::fits_i64(y * old(self).rasterizer.width),
            crate::rasterizer::fits_i64(y * old(self).rasterizer.width + x),
            crate::rasterizer::fits_i64((y * old(self).rasterizer.width + x) * 4),
        ensures
            *final(self) == *old(self),
    {
        let _c: Color = self.rasterizer.pget(x as i64, y as i64);
    }

    /// Draws a line into the whole rasterizer with `Rasterizer::pline`; too simple to
    /// parallelize.
    pub fn pline(&mut self, x0: i32, y0: i32, x1: i32, y1: i32, color: Color)
        requires
            old(self).rasterizer.wf(),
            old(self).rasterizer.width <= i64::MAX,
            old(self).rasterizer.height <= i64::MAX,
            old(self).rasterizer.rcanvas().pset_seq_req(
                old(self).rasterizer.state(),
                rline_dabs(old(self).rasterizer.rcanvas(), x0 as int, y0 as int, x1 as int, y1 as int, color),
            ),
        ensures
            final(self).rasterizer.wf(),
            final(self).rasterizer.same_setup(old(self).rasterizer),
            final(self).rasterizer.state() == old(self).rasterizer.rcanvas().pset_seq(
                old(self).rasterizer.state(),
                rline_dabs(old(self).rasterizer.rcanvas(), x0 as int, y0 as int, x1 as int, y1 as int, color),
            ),
            final(self).partitions == old(self).partitions,
            final(self).scheme == old(self).scheme,
            final(self).threshold == old(self).threshold,
    {
        self.rasterizer.pline(x0 as i64, y0 as i64, x1 as i64, y1 as i64, color);
    }

    /// The partitions are well formed and lie inside the whole rasterizer, whose size fits
    /// `i32`.
    pub open spec fn laid_out(self) -> bool {
        &&& self.wf()
        &&& self.rasterizer.width <= i32::MAX
        &&& self.rasterizer.height <= i32::MAX
        &&& forall|k: int|
            0 <= k < self.partitions@.len() ==> (#[trigger] self.partitions@[k]).offset_x + self.partitions@[k].width
                <= self.rasterizer.width && self.partitions@[k].offset_y + self.partitions@[k].height <= self.rasterizer.height
    }

    /// Every partition can be copied back: one that differs in size from the whole
    /// rasterizer is at least one pixel wide.
    pub open spec fn copy_back_ok(self) -> bool {
        forall|k: int|
            0 <= k < self.partitions@.len() ==> !((#[trigger] self.partitions@[k]).width == self.rasterizer.width
                && self.partitions@[k].height == self.rasterizer.height) ==> self.partitions@[k].width > 0
    }

    /// The partitions have the same place and setup in both.
    pub open spec fn same_parts_setup(self, other: PartitionedRasterizer) -> bool {
        &&& self.partitions@.len() == other.partitions@.len()
        &&& forall|k: int| 0 <= k < self.partitions@.len() ==> (#[trigger] self.partitions@[k]).same_setup(other.partitions@[k])
    }

    /// Copies every partition, in order, back into the whole rasterizer at its offset.
    pub fn copy_back(&mut self)
        requires
            old(self).laid_out(),
            old(self).copy_back_ok(),
        ensures
            final(self).laid_out(),
            final(self).copy_back_ok(),
            final(self).partitions == old(self).partitions,
            final(self).scheme == old(self).scheme,
            final(self).threshold == old(self).threshold,
            final(self).rasterizer.same_setup(old(self).rasterizer),
            final(self).rasterizer.drawn_pixels_since_clear == old(self).rasterizer.drawn_pixels_since_clear,
            final(self).rasterizer.color@ == rblit_back(
                old(self).rasterizer.color@,
                old(self).rasterizer.width as int,
                old(self).rasterizer.height as int,
                old(self).partitions@,
            ),
    {
        let n: usize = self.partitions.len();
        let mut i: usize = 0;
        while i < n
            invariant
                self.laid_out(),
                self.copy_back_ok(),
                self.partitions == old(self).partitions,
                self.scheme == old(self).scheme,
                self.threshold == old(self).threshold,
                self.rasterizer.same_setup(old(self).rasterizer),
                self.rasterizer.drawn_pixels_since_clear == old(self).rasterizer.drawn_pixels_since_clear,
                n == self.partitions@.len(),
                i <= n,
                self.rasterizer.color@ == rblit_back(
                    old(self).rasterizer.color@,
                    old(self).rasterizer.width as int,
                    old(self).rasterizer.height as int,
                    old(self).partitions@.take(i as int),
                ),
            decreases n - i,
        {
            proof {
                assert(old(self).partitions@.take(i + 1).drop_last() =~= old(self).partitions@.take(i as int));
                assert(self.partitions@[i as int].wf());
            }
            let ox: i64 = self.partitions[i].offset_x as i64;
            let oy: i64 = self.partitions[i].offset_y as i64;
            self.rasterizer.blit(&self.partitions[i], ox, oy);
            i = i + 1;
        }
        assert(old(self).partitions@.take(n as int) =~= old(self).partitions@);
    }

    /// Copies into partition `i` the pixels of the whole rasterizer that it covers, so that
    /// drawing into it starts from what the whole rasterizer holds there; its count stays.
    pub fn refresh_partition(&mut self, i: usize)
        requires
            old(self).laid_out(),
            i < old(self).partitions@.len(),
        ensures
            final(self).laid_out(),
            final(self).rasterizer == old(self).rasterizer,
            final(self).scheme == old(self).scheme,
            final(self).threshold == old(self).threshold,
            final(self).partitions@.len() == old(self).partitions@.len(),
            forall|k: int| 0 <= k < old(self).partitions@.len() && k != i ==> #[trigger] final(self).partitions@[k] == old(self).partitions@[k],
            final(self).partitions@[i as int].same_setup(old(self).partitions@[i as int]),
            final(self).partitions@[i as int].state() == refreshed(
                old(self).rasterizer.color@,
                old(self).rasterizer.width as int,
                old(self).partitions@[i as int],
            ),
    {
        assert(self.partitions@[i as int].wf());
        let pw: usize = self.partitions[i].width;
        let ph: usize = self.partitions[i].height;
        let ox: usize = self.partitions[i].offset_x;
        let oy: usize = self.partitions[i].offset_y;
        let v: Vec<u8> = crop_cell(&self.rasterizer.color, self.rasterizer.width, self.rasterizer.height, ox, oy, pw, ph);
        self.partitions[i].color = v;
    }

    /// Draws a rectangle. A filled rectangle of at least the threshold's pixels is drawn
    /// into every partition, each first refreshed from the whole rasterizer and drawn into
    /// at the rectangle's position relative to it, and the partitions are then copied back
    /// into the whole rasterizer in order; otherwise the rectangle is drawn into the whole
    /// rasterizer.
    pub fn prectangle(&mut self, filled: bool, x: i32, y: i32, width: i32, height: i32, color: Color)
        requires
            old(self).laid_out(),
            fits_i32(width * height),
            parallel_rrect(*old(self), filled, width as int, height as int) ==> old(self).copy_back_ok(),
            parallel_rrect(*old(self), filled, width as int, height as int) ==> forall|k: int|
                0 <= k < old(self).partitions@.len() ==> fits_i32(x - (#[trigger] old(self).partitions@[k]).offset_x) && fits_i32(
                    y - old(self).partitions@[k].offset_y,
                ) && rrect_req_on(old(self).partitions@[k].rcanvas(), refreshed(old(self).rasterizer.color@, old(self).rasterizer.width as int, old(self).partitions@[k]),
                    filled,
                    x - old(self).partitions@[k].offset_x,
                    y - old(self).partitions@[k].offset_y,
                    width as int,
                    height as int,
                    color,
                ),
            !parallel_rrect(*old(self), filled, width as int, height as int) ==> rrect_req(
                old(self).rasterizer,
                filled,
                x as int,
                y as int,
                width as int,
                height as int,
                color,
            ),
        ensures
            synced_grid(*old(self)) ==> synced_grid(*final(self)),
            final(self).laid_out(),
            final(self).same_parts_setup(*old(self)),
            final(self).rasterizer.same_setup(old(self).rasterizer),
            final(self).scheme == old(self).scheme,
            final(self).threshold == old(self).threshold,
            parallel_rrect(*old(self), filled, width as int, height as int) ==> forall|k: int|
                0 <= k < old(self).partitions@.len() ==> (#[trigger] final(self).partitions@[k]).state() == rrect_result_on(old(self).partitions@[k].rcanvas(), refreshed(old(self).rasterizer.color@, old(self).rasterizer.width as int, old(self).partitions@[k]),
                    filled,
                    x - old(self).partitions@[k].offset_x,
                    y - old(self).partitions@[k].offset_y,
                    width as int,
                    height as int,
                    color,
                ),
            parallel_rrect(*old(self), filled, width as int, height as int) ==> final(self).rasterizer.color@ == rblit_back(
                old(self).rasterizer.color@,
                old(self).rasterizer.width as int,
                old(self).rasterizer.height as int,
                final(self).partitions@,
            ),
            parallel_rrect(*old(self), filled, width as int, height as int) ==> final(self).rasterizer.drawn_pixels_since_clear
                == old(self).rasterizer.drawn_pixels_since_clear,
            !parallel_rrect(*old(self), filled, width as int, height as int) ==> final(self).partitions == old(self).partitions,
            !parallel_rrect(*old(self), filled, width as int, height as int) ==> final(self).rasterizer.state() == rrect_result(
                old(self).rasterizer,
                filled,
                x as int,
                y as int,
                width as int,
                height as int,
                color,
            ),
            synced_grid(*old(self)) ==> final(self).rasterizer.color@ == rrect_result(
                old(self).rasterizer,
                filled,
                x as int,
                y as int,
                width as int,
                height as int,
                color,
            ).0,
    {
        let total_area: i32 = width * height;
        if filled && total_area >= self.threshold.pixels() as i32 {
            let n: usize = self.partitions.len();
            let mut i: usize = 0;
            while i < n
                invariant
                    self.laid_out(),
                    self.copy_back_ok(),
                    self.same_parts_setup(*old(self)),
                    self.rasterizer == old(self).rasterizer,
                    self.scheme == old(self).scheme,
                    self.threshold == old(self).threshold,
                    n == self.partitions@.len(),
                    i <= n,
                    forall|k: int|
                        0 <= k < n ==> fits_i32(x - (#[trigger] old(self).partitions@[k]).offset_x) && fits_i32(
                            y - old(self).partitions@[k].offset_y,
                        ) && rrect_req_on(old(self).partitions@[k].rcanvas(), refreshed(old(self).rasterizer.color@, old(self).rasterizer.width as int, old(self).partitions@[k]),
                            filled,
                            x - old(self).partitions@[k].offset_x,
                            y - old(self).partitions@[k].offset_y,
                            width as int,
                            height as int,
                            color,
                        ),
                    forall|k: int|
                        0 <= k < i ==> (#[trigger] self.partitions@[k]).state() == rrect_result_on(old(self).partitions@[k].rcanvas(), refreshed(old(self).rasterizer.color@, old(self).rasterizer.width as int, old(self).partitions@[k]),
                            filled,
                            x - old(self).partitions@[k].offset_x,
                            y - old(self).partitions@[k].offset_y,
                            width as int,
                            height as int,
                            color,
                        ),
                    forall|k: int| i <= k < n ==> #[trigger] self.partitions@[k] == old(self).partitions@[k],
                decreases n - i,
            {
                self.refresh_partition(i);
                let rx: i32 = x - self.partitions[i].offset_x as i32;
                let ry: i32 = y - self.partitions[i].offset_y as i32;
                self.partitions[i].prectangle(filled, rx as i64, ry as i64, width as i64, height as i64, color);
                i = i + 1;
            }
            self.copy_back();
            proof {
                if synced_grid(*old(self)) {
                    law_partitioned_rasterizer_rectangle(*old(self), self.partitions@, x as int, y as int, width as int, height as int, color);
                }
            }
        } else {
            self.rasterizer.prectangle(filled, x as i64, y as i64, width as i64, height as i64, color);
        }
    }

    /// Draws a circle part by part: into every partition, each first refreshed from the
    /// whole rasterizer and drawn into at the circle's position relative to it, then copies
    /// the partitions back into the whole rasterizer in order. This is what `pcircle` on a partitioned rasterizer does once
    /// the circle's area reaches the threshold.
    pub fn pcircle_parts(&mut self, filled: bool, xc: i32, yc: i32, radius: i32, color: Color)
        requires
            old(self).laid_out(),
            old(self).copy_back_ok(),
            forall|k: int|
                0 <= k < old(self).partitions@.len() ==> fits_i32(xc - (#[trigger] old(self).partitions@[k]).offset_x) && fits_i32(
                    yc - old(self).partitions@[k].offset_y,
                ) && rcircle_req_on(old(self).partitions@[k].rcanvas(), refreshed(old(self).rasterizer.color@, old(self).rasterizer.width as int, old(self).partitions@[k]),
                    filled,
                    xc - old(self).partitions@[k].offset_x,
                    yc - old(self).partitions@[k].offset_y,
                    radius as int,
                    color,
                ),
        ensures
            synced_grid(*old(self)) ==> synced_grid(*final(self)),
            final(self).laid_out(),
            final(self).same_parts_setup(*old(self)),
            final(self).rasterizer.same_setup(old(self).rasterizer),
            final(self).rasterizer.drawn_pixels_since_clear == old(self).rasterizer.drawn_pixels_since_clear,
            final(self).scheme == old(self).scheme,
            final(self).threshold == old(self).threshold,
            forall|k: int|
                0 <= k < old(self).partitions@.len() ==> (#[trigger] final(self).partitions@[k]).state() == rcircle_result_on(old(self).partitions@[k].rcanvas(), refreshed(old(self).rasterizer.color@, old(self).rasterizer.width as int, old(self).partitions@[k]),
                    filled,
                    xc - old(self).partitions@[k].offset_x,
                    yc - old(self).partitions@[k].offset_y,
                    radius as int,
                    color,
                ),
            final(self).rasterizer.color@ == rblit_back(
                old(self).rasterizer.color@,
                old(self).rasterizer.width as int,
                old(self).rasterizer.height as int,
                final(self).partitions@,
            ),
            filled && synced_grid(*old(self)) ==> final(self).rasterizer.color@ == rcircle_result(
                old(self).rasterizer,
                true,
                xc as int,
                yc as int,
                radius as int,
                color,
            ).0,
    {
        let n: usize = self.partitions.len();
        let mut i: usize = 0;
        while i < n
            invariant
                self.laid_out(),
                self.copy_back_ok(),
                self.same_parts_setup(*old(self)),
                self.rasterizer == old(self).rasterizer,
                self.scheme == old(self).scheme,
                self.threshold == old(self).threshold,
                n == self.partitions@.len(),
                i <= n,
                forall|k: int|
                    0 <= k < n ==> fits_i32(xc - (#[trigger] old(self).partitions@[k]).offset_x) && fits_i32(
                        yc - old(self).partitions@[k].offset_y,
                    ) && rcircle_req_on(old(self).partitions@[k].rcanvas(), refreshed(old(self).rasterizer.color@, old(self).rasterizer.width as int, old(self).partitions@[k]),
                        filled,
                        xc - old(self).partitions@[k].offset_x,
                        yc - old(self).partitions@[k].offset_y,
                        radius as int,
                        color,
                    ),
                forall|k: int|
                    0 <= k < i ==> (#[trigger] self.partitions@[k]).state() == rcircle_result_on(old(self).partitions@[k].rcanvas(), refreshed(old(self).rasterizer.color@, old(self).rasterizer.width as int, old(self).partitions@[k]),
                        filled,
                        xc - old(self).partitions@[k].offset_x,
                        yc - old(self).partitions@[k].offset_y,
                        radius as int,
                        color,
                    ),
                forall|k: int| i <= k < n ==> #[trigger] self.partitions@[k] == old(self).partitions@[k],
            decreases n - i,
        {
            self.refresh_partition(i);
            let rx: i32 = xc - self.partitions[i].offset_x as i32;
            let ry: i32 = yc - self.partitions[i].offset_y as i32;
            self.partitions[i].pcircle(filled, rx as i64, ry as i64, radius as i64, color);
            i = i + 1;
        }
        self.copy_back();
        proof {
            if filled && synced_grid(*old(self)) {
                law_partitioned_rasterizer_disc(*old(self), self.partitions@, xc as int, yc as int, radius as int, color);
            }
        }
    }

    /// Draws an image. An image of at least the threshold's pixels is drawn into every
    /// partition, each first refreshed from the whole rasterizer and drawn into at the
    /// image's position relative to it, and the partitions are then copied back into the
    /// whole rasterizer in order; otherwise the image is drawn
    /// into the whole rasterizer.
    pub fn pimg(&mut self, image: &Rasterizer, x: i32, y: i32)
        requires
            old(self).laid_out(),
            rimg_sized(*image),
            image.width <= i32::MAX,
            image.height <= i32::MAX,
            fits_i32(image.width * image.height),
            x + image.width <= i64::MAX,
            y + image.height <= i64::MAX,
            parallel_rimage(*old(self), *image) ==> old(self).copy_back_ok(),
            parallel_rimage(*old(self), *image) ==> forall|k: int|
                0 <= k < old(self).partitions@.len() ==> fits_i32(x - (#[trigger] old(self).partitions@[k]).offset_x) && fits_i32(
                    y - old(self).partitions@[k].offset_y,
                ) && rimg_req_on(old(self).partitions@[k].rcanvas(), refreshed(old(self).rasterizer.color@, old(self).rasterizer.width as int, old(self).partitions@[k]), *image, x - old(self).partitions@[k].offset_x, y - old(self).partitions@[k].offset_y),
            !parallel_rimage(*old(self), *image) ==> rimg_req(old(self).rasterizer, *image, x as int, y as int),
        ensures
            synced_grid(*old(self)) ==> synced_grid(*final(self)),
            final(self).laid_out(),
            final(self).same_parts_setup(*old(self)),
            final(self).rasterizer.same_setup(old(self).rasterizer),
            final(self).scheme == old(self).scheme,
            final(self).threshold == old(self).threshold,
            parallel_rimage(*old(self), *image) ==> forall|k: int|
                0 <= k < old(self).partitions@.len() ==> (#[trigger] final(self).partitions@[k]).state() == rimg_result_on(old(self).partitions@[k].rcanvas(), refreshed(old(self).rasterizer.color@, old(self).rasterizer.width as int, old(self).partitions@[k]),
                    *image,
                    x - old(self).partitions@[k].offset_x,
                    y - old(self).partitions@[k].offset_y,
                ),
            parallel_rimage(*old(self), *image) ==> final(self).rasterizer.color@ == rblit_back(
                old(self).rasterizer.color@,
                old(self).rasterizer.width as int,
                old(self).rasterizer.height as int,
                final(self).partitions@,
            ),
            parallel_rimage(*old(self), *image) ==> final(self).rasterizer.drawn_pixels_since_clear
                == old(self).rasterizer.drawn_pixels_since_clear,
            !parallel_rimage(*old(self), *image) ==> final(self).partitions == old(self).partitions,
            !parallel_rimage(*old(self), *image) ==> final(self).rasterizer.state() == rimg_result(old(self).rasterizer, *image, x as int, y as int),
            synced_grid(*old(self)) ==> final(self).rasterizer.color@ == rimg_result(old(self).rasterizer, *image, x as int, y as int).0,
    {
        let width: usize = image.width;
        let height: usize = image.height;
        let total_area: i32 = (width as i32) * (height as i32);
        if total_area >= self.threshold.pixels() as i32 {
            let n: usize = self.partitions.len();
            let mut i: usize = 0;
            while i < n
                invariant
                    self.laid_out(),
                    self.copy_back_ok(),
                    self.same_parts_setup(*old(self)),
                    self.rasterizer == old(self).rasterizer,
                    self.scheme == old(self).scheme,
                    self.threshold == old(self).threshold,
                    n == self.partitions@.len(),
                    i <= n,
                    rimg_sized(*image),
                    x + image.width <= i64::MAX,
                    y + image.height <= i64::MAX,
                    forall|k: int|
                        0 <= k < n ==> fits_i32(x - (#[trigger] old(self).partitions@[k]).offset_x) && fits_i32(
                            y - old(self).partitions@[k].offset_y,
                        ) && rimg_req_on(old(self).partitions@[k].rcanvas(), refreshed(old(self).rasterizer.color@, old(self).rasterizer.width as int, old(self).partitions@[k]), *image, x - old(self).partitions@[k].offset_x, y - old(self).partitions@[k].offset_y),
                    forall|k: int|
                        0 <= k < i ==> (#[trigger] self.partitions@[k]).state() == rimg_result_on(old(self).partitions@[k].rcanvas(), refreshed(old(self).rasterizer.color@, old(self).rasterizer.width as int, old(self).partitions@[k]),
                            *image,
                            x - old(self).partitions@[k].offset_x,
                            y - old(self).partitions@[k].offset_y,
                        ),
                    forall|k: int| i <= k < n ==> #[trigger] self.partitions@[k] == old(self).partitions@[k],
                decreases n - i,
            {
                self.refresh_partition(i);
                let rx: i32 = x - self.partitions[i].offset_x as i32;
                let ry: i32 = y - self.partitions[i].offset_y as i32;
                self.partitions[i].pimg(image, rx as i64, ry as i64);
                i = i + 1;
            }
            self.copy_back();
            proof {
                if synced_grid(*old(self)) {
                    law_partitioned_rasterizer_image(*old(self), self.partitions@, *image, x as int, y as int);
                }
            }
        } else {
            self.rasterizer.pimg(image, x as i64, y as i64);
        }
    }

    /// Draws a section of an image. For an image of at least the threshold's pixels the
    /// section is drawn into every partition, each first refreshed from the whole
    /// rasterizer and drawn into at its position relative to it, and the partitions are
    /// then copied back into the whole rasterizer in order; otherwise the section is drawn into the whole rasterizer.
    pub fn pimgrect(&mut self, image: &Rasterizer, x: i32, y: i32, ix: i32, iy: i32, iw: i32, ih: i32)
        requires
            old(self).laid_out(),
            rimg_sized(*image),
            image.width <= i32::MAX,
            image.height <= i32::MAX,
            fits_i32(image.width * image.height),
            x + image.width <= i64::MAX,
            y + image.height <= i64::MAX,
            parallel_rimage(*old(self), *image) ==> old(self).copy_back_ok(),
            parallel_rimage(*old(self), *image) ==> forall|k: int|
                0 <= k < old(self).partitions@.len() ==> fits_i32(x - (#[trigger] old(self).partitions@[k]).offset_x) && fits_i32(
                    y - old(self).partitions@[k].offset_y,
                ) && rimgrect_req_on(old(self).partitions@[k].rcanvas(), refreshed(old(self).rasterizer.color@, old(self).rasterizer.width as int, old(self).partitions@[k]),
                    *image,
                    x - old(self).partitions@[k].offset_x,
                    y - old(self).partitions@[k].offset_y,
                    ix as int,
                    iy as int,
                    iw as int,
                    ih as int,
                ),
            !parallel_rimage(*old(self), *image) ==> rimgrect_req(old(self).rasterizer, *image, x as int, y as int, ix as int, iy as int, iw as int, ih as int),
        ensures
            synced_grid(*old(self)) ==> synced_grid(*final(self)),
            final(self).laid_out(),
            final(self).same_parts_setup(*old(self)),
            final(self).rasterizer.same_setup(old(self).rasterizer),
            final(self).scheme == old(self).scheme,
            final(self).threshold == old(self).threshold,
            parallel_rimage(*old(self), *image) ==> forall|k: int|
                0 <= k < old(self).partitions@.len() ==> (#[trigger] final(self).partitions@[k]).state() == rimgrect_result_on(old(self).partitions@[k].rcanvas(), refreshed(old(self).rasterizer.color@, old(self).rasterizer.width as int, old(self).partitions@[k]),
                    *image,
                    x - old(self).partitions@[k].offset_x,
                    y - old(self).partitions@[k].offset_y,
                    ix as int,
                    iy as int,
                    iw as int,
                    ih as int,
                ),
            parallel_rimage(*old(self), *image) ==> final(self).rasterizer.color@ == rblit_back(
                old(self).rasterizer.color@,
                old(self).rasterizer.width as int,
                old(self).rasterizer.height as int,
                final(self).partitions@,
            ),
            parallel_rimage(*old(self), *image) ==> final(self).rasterizer.drawn_pixels_since_clear
                == old(self).rasterizer.drawn_pixels_since_clear,
            !parallel_rimage(*old(self), *image) ==> final(self).partitions == old(self).partitions,
            !parallel_rimage(*old(self), *image) ==> final(self).rasterizer.state() == rimgrect_result(old(self).rasterizer, *image, x as int, y as int, ix as int, iy as int, iw as int, ih as int),
    {
        let width: usize = image.width;
        let height: usize = image.height;
        let total_area: i32 = (width as i32) * (height as i32);
        if total_area >= self.threshold.pixels() as i32 {
            let n: usize = self.partitions.len();
            let mut i: usize = 0;
            while i < n
                invariant
                    self.laid_out(),
                    self.copy_back_ok(),
                    self.same_parts_setup(*old(self)),
                    self.rasterizer == old(self).rasterizer,
                    self.scheme == old(self).scheme,
                    self.threshold == old(self).threshold,
                    n == self.partitions@.len(),
                    i <= n,
                    rimg_sized(*image),
                    forall|k: int|
                        0 <= k < n ==> fits_i32(x - (#[trigger] old(self).partitions@[k]).offset_x) && fits_i32(
                            y - old(self).partitions@[k].offset_y,
                        ) && rimgrect_req_on(old(self).partitions@[k].rcanvas(), refreshed(old(self).rasterizer.color@, old(self).rasterizer.width as int, old(self).partitions@[k]),
                            *image,
                            x - old(self).partitions@[k].offset_x,
                            y - old(self).partitions@[k].offset_y,
                            ix as int,
                            iy as int,
                            iw as int,
                            ih as int,
                        ),
                    forall|k: int|
                        0 <= k < i ==> (#[trigger] self.partitions@[k]).state() == rimgrect_result_on(old(self).partitions@[k].rcanvas(), refreshed(old(self).rasterizer.color@, old(self).rasterizer.width as int, old(self).partitions@[k]),
                            *image,
                            x - old(self).partitions@[k].offset_x,
                            y - old(self).partitions@[k].offset_y,
                            ix as int,
                            iy as int,
                            iw as int,
                            ih as int,
                        ),
                    forall|k: int| i <= k < n ==> #[trigger] self.partitions@[k] == old(self).partitions@[k],
                decreases n - i,
            {
                self.refresh_partition(i);
                let rx: i32 = x - self.partitions[i].offset_x as i32;
                let ry: i32 = y - self.partitions[i].offset_y as i32;
                self.partitions[i].pimgrect(image, rx as i64, ry as i64, ix as i64, iy as i64, iw as i64, ih as i64);
                i = i + 1;
            }
            self.copy_back();
        } else {
            self.rasterizer.pimgrect(image, x as i64, y as i64, ix as i64, iy as i64, iw as i64, ih as i64);
        }
    }

    /// Outlines the top and left edges of every partition in magenta, in the whole
    /// rasterizer.
    pub fn draw_debug_view(&mut self)
        requires
            old(self).laid_out(),
            old(self).rasterizer.rcanvas().pset_seq_req(old(self).rasterizer.state(), rdebug_dabs(old(self).rasterizer.rcanvas(), old(self).partitions@)),
        ensures
            final(self).laid_out(),
            final(self).partitions == old(self).partitions,
            final(self).scheme == old(self).scheme,
            final(self).threshold == old(self).threshold,
            final(self).rasterizer.same_setup(old(self).rasterizer),
            final(self).rasterizer.state() == old(self).rasterizer.rcanvas().pset_seq(
                old(self).rasterizer.state(),
                rdebug_dabs(old(self).rasterizer.rcanvas(), old(self).partitions@),
            ),
    {
        let ghost rc: RCanvas = old(self).rasterizer.rcanvas();
        let ghost st0: (Seq<u8>, int) = old(self).rasterizer.state();
        let ghost all: Seq<RDab> = rdebug_dabs(rc, old(self).partitions@);
        proof {
            assert(old(self).partitions@.take(0) =~= Seq::<Rasterizer>::empty());
            assert(rdebug_dabs(rc, old(self).partitions@.take(0)) == Seq::<RDab>::empty());
            assert(Seq::<RDab>::empty() + all.subrange(0, all.len() as int) =~= all);
        }
        let n: usize = self.partitions.len();
        let mut i: usize = 0;
        while i < n
            invariant
                self.laid_out(),
                self.partitions == old(self).partitions,
                self.scheme == old(self).scheme,
                self.threshold == old(self).threshold,
                self.rasterizer.same_setup(old(self).rasterizer),
                rc == self.rasterizer.rcanvas(),
                n == self.partitions@.len(),
                i <= n,
                all == rdebug_dabs(rc, old(self).partitions@),
                rc.pset_seq_req(st0, all),
                all == rdebug_dabs(rc, old(self).partitions@.take(i as int)) + all.subrange(
                    rdebug_dabs(rc, old(self).partitions@.take(i as int)).len() as int,
                    all.len() as int,
                ),
                self.rasterizer.state() == rc.pset_seq(st0, rdebug_dabs(rc, old(self).partitions@.take(i as int))),
            decreases n - i,
        {
            let ghost parts = old(self).partitions@;
            let ghost p = parts[i as int];
            let ghost c = Color { r: 255, g: 0, b: 255, a: 255 };
            let ghost prev = rdebug_dabs(rc, parts.take(i as int));
            let ghost a = rline_dabs(rc, p.offset_x as int, p.offset_y as int, p.offset_x + p.width, p.offset_y as int, c);
            let ghost b = rline_dabs(rc, p.offset_x as int, p.offset_y as int, p.offset_x as int, p.offset_y + p.height, c);
            proof {
                assert(parts.take(i + 1).drop_last() =~= parts.take(i as int));
                assert(parts.take(i + 1).last() == p);
                assert(rdebug_dabs(rc, parts.take(i + 1)) == prev + a + b);
                lemma_rdebug_dabs_prefix(rc, parts, i as int + 1);
                let rest = all.subrange((prev + a + b).len() as int, all.len() as int);
                assert(all =~= prev + a + b + rest);
                lemma_pset_seq_concat(rc, st0, prev + a + b, rest);
                lemma_pset_seq_concat(rc, st0, prev + a, b);
                lemma_pset_seq_concat(rc, st0, prev, a);
                lemma_pset_seq_concat(rc, rc.pset_seq(st0, prev), a, b);
                assert(self.partitions@[i as int].wf());
            }
            let ox: i64 = self.partitions[i].offset_x as i64;
            let oy: i64 = self.partitions[i].offset_y as i64;
            let ex: i64 = (self.partitions[i].offset_x + self.partitions[i].width) as i64;
            let ey: i64 = (self.partitions[i].offset_y + self.partitions[i].height) as i64;
            self.rasterizer.pline(ox, oy, ex, oy, Color::new(255, 0, 255, 255));
            self.rasterizer.pline(ox, oy, ox, ey, Color::new(255, 0, 255, 255));
            proof {
                let rest = all.subrange((prev + a + b).len() as int, all.len() as int);
                assert(all =~= rdebug_dabs(rc, parts.take(i + 1)) + rest);
            }
            i = i + 1;
        }
        proof {
            assert(old(self).partitions@.take(n as int) =~= old(self).partitions@);
        }
    }

    /// Makes a partitioned rasterizer of the given size, split for `cores` cores (0: the
    /// number of CPUs of this machine), that draws in parallel from 32768 pixels on.
    pub fn new(width: usize, height: usize, cores: usize) -> (pr: PartitionedRasterizer)
        requires
            width * height * 4 <= usize::MAX,
        ensures
            pr.wf(),
            pr.partitioned(),
            synced_grid(pr),
            pr.rasterizer.width == width,
            pr.rasterizer.height == height,
            pr.rasterizer.color@ == Seq::new((width * height * 4) as nat, |i: int| 0u8),
            pr.rasterizer.draw_op() == PSetOp::Opaque,
            pr.rasterizer.draw_mode == DrawMode::Opaque,
            pr.rasterizer.tint == (Color { r: 255, g: 255, b: 255, a: 255 }),
            pr.rasterizer.opacity == 255,
            pr.rasterizer.drawn_pixels_since_clear == 0,
            pr.rasterizer.offset_x == 0,
            pr.rasterizer.offset_y == 0,
            !pr.rasterizer.saving_next_frame(),
            pr.threshold == BoundingParallelThreshold::Low,
            cores != 0 ==> pr.scheme == scheme_for_spec(cores as int, width as int, height as int),
            cores == 0 ==> exists|n: int| n >= 1 && pr.scheme == scheme_for_spec(n, width as int, height as int),
    {
        let mut pr = PartitionedRasterizer {
            rasterizer: Rasterizer::new(width, height),
            partitions: Vec::new(),
            scheme: PartitionScheme::Full,
            threshold: BoundingParallelThreshold::Low,
        };
        pr.set_core_limit(cores);
        proof {
            lemma_fresh_synced(pr);
        }
        pr
    }
}

impl Rasterizer {
    /// A partitioned rasterizer, split for the CPUs of this machine, holding a copy of
    /// this rasterizer's pixels.
    pub fn into_partitioned(&self) -> (pr: PartitionedRasterizer)
        requires
            self.wf(),
        ensures
            pr.wf(),
            pr.partitioned(),
            pr.rasterizer.width == self.width,
            pr.rasterizer.height == self.height,
            pr.rasterizer.color@ == self.color@,
            pr.rasterizer.draw_op() == PSetOp::Opaque,
            pr.rasterizer.tint == (Color { r: 255, g: 255, b: 255, a: 255 }),
            pr.rasterizer.opacity == 255,
            pr.rasterizer.drawn_pixels_since_clear == 0,
            pr.threshold == BoundingParallelThreshold::Low,
            exists|n: int| n >= 1 && pr.scheme == scheme_for_spec(n, self.width as int, self.height as int),
    {
        let len: usize = self.color.len();
        let mut pr = PartitionedRasterizer::new(self.width, self.height, 0);
        pr.rasterizer.blit(self, 0, 0);
        pr
    }
}

/// The pixel (px, py) of a rasterizer after `blit` of `src` at (x, y).
pub proof fn lemma_rblit_pix_pixel(pix: Seq<u8>, w: int, h: int, src: Rasterizer, x: int, y: int, px: int, py: int)
    requires
        pix.len() == w * h * 4,
        src.wf(),
        0 <= px < w,
        0 <= py < h,
    ensures
        rblit_pix(pix, w, h, src, x, y).len() == pix.len(),
        pixel_at(rblit_pix(pix, w, h, src, x, y), w, px, py) == if 0 <= x && 0 <= y && x + src.width <= w && y + src.height
            <= h && x <= px < x + src.width && y <= py < y + src.height {
            pixel_at(src.color@, src.width as int, px - x, py - y)
        } else {
            pixel_at(pix, w, px, py)
        },
{
    if !(w == src.width && h == src.height) && 0 <= x && 0 <= y && x + src.width <= w && y + src.height <= h {
        lemma_blit_copy_pixel(pix, w, h, src.color@, src.width as int, src.height as int, x, y, px, py);
    }
}

/// The pixel (px, py) lies in the rectangle that the partition `p` covers.
pub open spec fn in_rcell(px: int, py: int, p: Rasterizer) -> bool {
    p.offset_x <= px < p.offset_x + p.width && p.offset_y <= py < p.offset_y + p.height
}

/// Copying partitions back keeps the size of the pixels.
proof fn lemma_rblit_back_len(pix: Seq<u8>, w: int, h: int, parts: Seq<Rasterizer>)
    requires
        pix.len() == w * h * 4,
        forall|j: int| 0 <= j < parts.len() ==> (#[trigger] parts[j]).wf(),
    ensures
        rblit_back(pix, w, h, parts).len() == pix.len(),
    decreases parts.len(),
{
    if parts.len() > 0 {
        let q = parts.drop_last();
        assert forall|j: int| 0 <= j < q.len() implies (#[trigger] q[j]).wf() by {
            assert(q[j] == parts[j]);
        }
        lemma_rblit_back_len(pix, w, h, q);
        let last = parts.last();
        assert(last == parts[parts.len() - 1]);
    }
}

/// After the partitions are copied back in turn, a pixel that lies in exactly one of them
/// is that partition's pixel.
proof fn lemma_rblit_back_cell(pix: Seq<u8>, w: int, h: int, parts: Seq<Rasterizer>, k: int, px: int, py: int)
    requires
        pix.len() == w * h * 4,
        0 <= px < w,
        0 <= py < h,
        0 <= k < parts.len(),
        forall|j: int|
            0 <= j < parts.len() ==> (#[trigger] parts[j]).wf() && parts[j].offset_x + parts[j].width <= w && parts[j].offset_y
                + parts[j].height <= h,
        in_rcell(px, py, parts[k]),
        forall|j: int| 0 <= j < parts.len() && j != k ==> !in_rcell(px, py, #[trigger] parts[j]),
    ensures
        pixel_at(rblit_back(pix, w, h, parts), w, px, py) == pixel_at(
            parts[k].color@,
            parts[k].width as int,
            px - parts[k].offset_x,
            py - parts[k].offset_y,
        ),
    decreases parts.len(),
{
    let n = parts.len();
    let q = parts.drop_last();
    let last = parts[n - 1];
    assert(parts.last() == last);
    assert forall|j: int| 0 <= j < q.len() implies (#[trigger] q[j]).wf() by {
        assert(q[j] == parts[j]);
    }
    lemma_rblit_back_len(pix, w, h, q);
    let prev = rblit_back(pix, w, h, q);
    lemma_rblit_pix_pixel(prev, w, h, last, last.offset_x as int, last.offset_y as int, px, py);
    if k < n - 1 {
        assert forall|j: int|
            0 <= j < q.len() implies (#[trigger] q[j]).wf() && q[j].offset_x + q[j].width <= w && q[j].offset_y + q[j].height <= h by {
            assert(q[j] == parts[j]);
        }
        assert forall|j: int| 0 <= j < q.len() && j != k implies !in_rcell(px, py, #[trigger] q[j]) by {
            assert(q[j] == parts[j]);
        }
        assert(q[k] == parts[k]);
        lemma_rblit_back_cell(pix, w, h, q, k, px, py);
        assert(!in_rcell(px, py, parts[n - 1]));
    }
}

/// The partitions of `pr` are laid out as the grid of its scheme, whatever pixels they
/// hold, and every partition draws as the whole does: with the same operation, tint and
/// opacity.
pub open spec fn synced_grid(pr: PartitionedRasterizer) -> bool {
    let (nx, ny) = scheme_grid(pr.scheme);
    let w = pr.rasterizer.width as int;
    let h = pr.rasterizer.height as int;
    &&& pr.wf()
    &&& pr.partitions@.len() == nx * ny
    &&& forall|k: int|
        0 <= k < pr.partitions@.len() ==> {
            let p = #[trigger] pr.partitions@[k];
            &&& grid_rcell(p, w, h, nx, ny, k)
            &&& p.draw_op() == pr.rasterizer.draw_op()
            &&& p.tint == pr.rasterizer.tint
            &&& p.opacity == pr.rasterizer.opacity
        }
}

/// The partitions of a rasterizer laid out as a grid lie inside it.
proof fn lemma_tiled_inside(pr: PartitionedRasterizer, k: int)
    requires
        synced_grid(pr),
        0 <= k < pr.partitions@.len(),
    ensures
        pr.partitions@[k].offset_x + pr.partitions@[k].width <= pr.rasterizer.width,
        pr.partitions@[k].offset_y + pr.partitions@[k].height <= pr.rasterizer.height,
{
    let w = pr.rasterizer.width as int;
    let h = pr.rasterizer.height as int;
    let (nx, ny) = scheme_grid(pr.scheme);
    assert(1 <= nx <= 8 && 1 <= ny <= 8);
    assert(grid_rcell(pr.partitions@[k], w, h, nx, ny, k));
    assert(k / nx < ny) by (nonlinear_arith)
        requires
            0 <= k < nx * ny,
            1 <= nx,
    ;
    lemma_cell_inside(w, nx, k % nx);
    lemma_cell_inside(h, ny, k / nx);
}

/// Copying back the partitions of a rasterizer laid out as a grid, each holding in its
/// cell the pixels of `direct`, gives `direct`.
#[verifier::spinoff_prover]
#[verifier::rlimit(40)]
proof fn lemma_tiled_copy_back(pr: PartitionedRasterizer, parts: Seq<Rasterizer>, direct: Seq<u8>)
    requires
        synced_grid(pr),
        parts.len() == pr.partitions@.len(),
        forall|k: int| 0 <= k < parts.len() ==> (#[trigger] parts[k]).same_setup(pr.partitions@[k]) && parts[k].wf(),
        direct.len() == pr.rasterizer.color@.len(),
        forall|k: int, lx: int, ly: int|
            0 <= k < parts.len() && 0 <= lx < parts[k].width && 0 <= ly < parts[k].height ==> #[trigger] pixel_at(
                parts[k].color@,
                parts[k].width as int,
                lx,
                ly,
            ) == pixel_at(direct, pr.rasterizer.width as int, parts[k].offset_x + lx, parts[k].offset_y + ly),
    ensures
        rblit_back(pr.rasterizer.color@, pr.rasterizer.width as int, pr.rasterizer.height as int, parts) == direct,
{
    let w = pr.rasterizer.width as int;
    let h = pr.rasterizer.height as int;
    let (nx, ny) = scheme_grid(pr.scheme);
    let n = parts.len();
    let pix = pr.rasterizer.color@;
    assert(1 <= nx <= 8 && 1 <= ny <= 8);
    // Every partition is a cell of the grid, inside the rasterizer.
    assert forall|k: int| 0 <= k < n implies {
        &&& (#[trigger] parts[k]).wf()
        &&& grid_rcell(parts[k], w, h, nx, ny, k)
        &&& parts[k].offset_x + parts[k].width <= w
        &&& parts[k].offset_y + parts[k].height <= h
    } by {
        let p = pr.partitions@[k];
        assert(grid_rcell(p, w, h, nx, ny, k));
        assert(parts[k].same_setup(p));
        lemma_tiled_inside(pr, k);
    }
    let split = rblit_back(pix, w, h, parts);
    lemma_rblit_back_len(pix, w, h, parts);
    // Pixel by pixel, the partition that holds the pixel has it as `direct` has.
    assert forall|px: int, py: int| 0 <= px < w && 0 <= py < h implies #[trigger] pixel_at(split, w, px, py) == pixel_at(direct, w, px, py) by {
        let cx = lemma_cell_find(w, nx, px);
        let cy = lemma_cell_find(h, ny, py);
        let k = cy * nx + cx;
        assert(0 <= k < n) by (nonlinear_arith)
            requires
                k == cy * nx + cx,
                0 <= cx < nx,
                0 <= cy < ny,
                n == nx * ny,
        ;
        vstd::arithmetic::div_mod::lemma_fundamental_div_mod_converse(k, nx, cy, cx);
        assert(in_rcell(px, py, parts[k]));
        assert forall|j: int| 0 <= j < n && j != k implies !in_rcell(px, py, #[trigger] parts[j]) by {
            if in_rcell(px, py, parts[j]) {
                let jx = j % nx;
                let jy = j / nx;
                vstd::arithmetic::div_mod::lemma_fundamental_div_mod(j, nx);
                assert(jy < ny) by (nonlinear_arith)
                    requires
                        0 <= j < nx * ny,
                        jy == j / nx,
                        nx >= 1,
                ;
                assert(grid_rcell(parts[j], w, h, nx, ny, j));
                assert(jx == cx);
                assert(jy == cy);
                assert(j == jy * nx + jx) by (nonlinear_arith)
                    requires
                        j == nx * jy + jx,
                ;
            }
        }
        lemma_rblit_back_cell(pix, w, h, parts, k, px, py);
        let lx = px - parts[k].offset_x;
        let ly = py - parts[k].offset_y;
        assert(pixel_at(parts[k].color@, parts[k].width as int, lx, ly) == pixel_at(direct, w, parts[k].offset_x + lx, parts[k].offset_y + ly));
    }
    assert forall|i: int| 0 <= i < split.len() implies #[trigger] split[i] == direct[i] by {
        lemma_byte_decompose(w, h, i);
        let px = (i / 4) % w;
        let py = (i / 4) / w;
        assert(pixel_at(split, w, px, py) == pixel_at(direct, w, px, py));
        let ch4 = i % 4;
        assert(i == (py * w + px) * 4 + ch4);
    }
    assert(split =~= direct);
}

/// The pixel (px, py) lies in some partition of `pr`.
pub open spec fn in_some_rpartition(pr: PartitionedRasterizer, px: int, py: int) -> bool {
    exists|k: int| 0 <= k < pr.partitions@.len() && #[trigger] in_rcell(px, py, pr.partitions@[k])
}

/// The pixel (px, py) of a rasterizer laid out as a grid lies in the partition returned,
/// and in no other.
proof fn lemma_rcell_of(pr: PartitionedRasterizer, px: int, py: int) -> (k: int)
    requires
        synced_grid(pr),
        0 <= px < pr.rasterizer.width,
        0 <= py < pr.rasterizer.height,
    ensures
        0 <= k < pr.partitions@.len(),
        in_rcell(px, py, pr.partitions@[k]),
        forall|j: int| 0 <= j < pr.partitions@.len() && #[trigger] in_rcell(px, py, pr.partitions@[j]) ==> j == k,
{
    let w = pr.rasterizer.width as int;
    let h = pr.rasterizer.height as int;
    let (nx, ny) = scheme_grid(pr.scheme);
    let parts = pr.partitions@;
    let n = parts.len();
    assert(1 <= nx <= 8 && 1 <= ny <= 8);
    let cx = lemma_cell_find(w, nx, px);
    let cy = lemma_cell_find(h, ny, py);
    let k = cy * nx + cx;
    assert(0 <= k < n) by (nonlinear_arith)
        requires
            k == cy * nx + cx,
            0 <= cx < nx,
            0 <= cy < ny,
            n == nx * ny,
    ;
    vstd::arithmetic::div_mod::lemma_fundamental_div_mod_converse(k, nx, cy, cx);
    assert(grid_rcell(parts[k], w, h, nx, ny, k));
    assert forall|j: int| 0 <= j < n && #[trigger] in_rcell(px, py, parts[j]) implies j == k by {
        let jx = j % nx;
        let jy = j / nx;
        vstd::arithmetic::div_mod::lemma_fundamental_div_mod(j, nx);
        assert(jy < ny) by (nonlinear_arith)
            requires
                0 <= j < nx * ny,
                jy == j / nx,
                nx >= 1,
        ;
        assert(grid_rcell(parts[j], w, h, nx, ny, j));
        assert(jx == cx);
        assert(jy == cy);
        assert(j == jy * nx + jx) by (nonlinear_arith)
            requires
                j == nx * jy + jx,
        ;
    }
    k
}

/// The partitions of a rasterizer laid out as a grid tile it: there is at least one, each
/// lies inside the rasterizer, and every pixel lies in exactly one of them.
pub proof fn law_rpartitions_tile(pr: PartitionedRasterizer)
    requires
        synced_grid(pr),
    ensures
        pr.partitions@.len() >= 1,
        forall|k: int|
            0 <= k < pr.partitions@.len() ==> (#[trigger] pr.partitions@[k]).offset_x + pr.partitions@[k].width <= pr.rasterizer.width
                && pr.partitions@[k].offset_y + pr.partitions@[k].height <= pr.rasterizer.height,
        forall|px: int, py: int|
            0 <= px < pr.rasterizer.width && 0 <= py < pr.rasterizer.height ==> #[trigger] in_some_rpartition(pr, px, py),
        forall|j: int, k: int, px: int, py: int|
            0 <= j < pr.partitions@.len() && 0 <= k < pr.partitions@.len() && #[trigger] in_rcell(px, py, pr.partitions@[j])
                && #[trigger] in_rcell(px, py, pr.partitions@[k]) ==> j == k,
{
    let (nx, ny) = scheme_grid(pr.scheme);
    assert(nx * ny >= 1) by (nonlinear_arith)
        requires
            1 <= nx,
            1 <= ny,
    ;
    assert forall|k: int| 0 <= k < pr.partitions@.len() implies (#[trigger] pr.partitions@[k]).offset_x + pr.partitions@[k].width
        <= pr.rasterizer.width && pr.partitions@[k].offset_y + pr.partitions@[k].height <= pr.rasterizer.height by {
        lemma_tiled_inside(pr, k);
    }
    assert forall|px: int, py: int| 0 <= px < pr.rasterizer.width && 0 <= py < pr.rasterizer.height implies #[trigger] in_some_rpartition(
        pr,
        px,
        py,
    ) by {
        let k = lemma_rcell_of(pr, px, py);
        assert(in_rcell(px, py, pr.partitions@[k]));
    }
    assert forall|j: int, k: int, px: int, py: int|
        0 <= j < pr.partitions@.len() && 0 <= k < pr.partitions@.len() && #[trigger] in_rcell(px, py, pr.partitions@[j])
            && #[trigger] in_rcell(px, py, pr.partitions@[k]) implies j == k by {
        lemma_tiled_inside(pr, j);
        let c = lemma_rcell_of(pr, px, py);
    }
}

/// Pixel (lx, ly) of a partition refreshed from the whole rasterizer and the pixel it
/// covers in the whole are the same, and so are their backgrounds.
proof fn lemma_refreshed_cell(pr: PartitionedRasterizer, k: int, lx: int, ly: int)
    requires
        synced_grid(pr),
        0 <= k < pr.partitions@.len(),
        0 <= lx < pr.partitions@[k].width,
        0 <= ly < pr.partitions@[k].height,
    ensures
        ({
            let p = pr.partitions@[k];
            let cp = rcell_pixels(pr.rasterizer.color@, pr.rasterizer.width as int, p);
            let px = p.offset_x + lx;
            let py = p.offset_y + ly;
            &&& cp.len() == p.color@.len()
            &&& pixel_at(cp, p.width as int, lx, ly) == pixel_at(pr.rasterizer.color@, pr.rasterizer.width as int, px, py)
            &&& bg_at(cp, p.rcanvas().index_of(lx, ly)) == bg_at(pr.rasterizer.color@, pr.rasterizer.rcanvas().index_of(px, py))
        }),
{
    let p = pr.partitions@[k];
    let w = pr.rasterizer.width as int;
    let (nx, ny) = scheme_grid(pr.scheme);
    assert(grid_rcell(p, w, pr.rasterizer.height as int, nx, ny, k));
    lemma_cell_bytes(pr.rasterizer.color@, w, p.offset_x as int, p.offset_y as int, p.width as int, p.height as int, lx, ly);
    let cp = rcell_pixels(pr.rasterizer.color@, w, p);
    let pw = p.width as int;
    let j = ((p.offset_y + ly) * w + p.offset_x + lx) * 4;
    assert(cp[(ly * pw + lx) * 4 + 0] == pr.rasterizer.color@[j + 0]);
    assert(cp[(ly * pw + lx) * 4 + 1] == pr.rasterizer.color@[j + 1]);
    assert(cp[(ly * pw + lx) * 4 + 2] == pr.rasterizer.color@[j + 2]);
}

/// Every dab of `f` lands where it is made: the dab for (x, y), if any, is at (x, y).
pub open spec fn in_place(f: spec_fn(int, int) -> Option<RDab>) -> bool {
    forall|x: int, y: int| (#[trigger] f(x, y)) is Some ==> f(x, y).unwrap().0 == x && f(x, y).unwrap().1 == y
}

/// The pixel (px, py) of the pixels `pix` of canvas `rc` after the dabs of `f` over the
/// cells from (x0, y0) to (x1, y1) are set: what the operation stores over the pixel's
/// background where `f` makes a dab for it, the pixel as it was otherwise.
pub open spec fn rplace_pixel(
    rc: RCanvas,
    pix: Seq<u8>,
    y0: int,
    y1: int,
    x0: int,
    x1: int,
    f: spec_fn(int, int) -> Option<RDab>,
    px: int,
    py: int,
) -> Color {
    if y0 <= py < y1 && x0 <= px < x1 && f(px, py) is Some {
        match op_color(rc.op, bg_at(pix, rc.index_of(px, py)), f(px, py).unwrap().2, rc.tint, rc.opacity) {
            Some(o) => o,
            None => pixel_at(pix, rc.width as int, px, py),
        }
    } else {
        pixel_at(pix, rc.width as int, px, py)
    }
}

/// Setting the dabs of an in-place fill along a row segment stores at each cell with a
/// dab what the operation gives over that cell's background, and changes no other pixel.
pub proof fn lemma_rplace_row(rc: RCanvas, st: (Seq<u8>, int), y: int, x0: int, x1: int, f: spec_fn(int, int) -> Option<RDab>)
    requires
        st.0.len() == rc.width * rc.height * 4,
        in_place(f),
    ensures
        rc.pset_seq(st, row_dabs(y, x0, x1, f)).0.len() == st.0.len(),
        forall|px: int, py: int|
            rc.in_bounds(px, py) ==> #[trigger] pixel_at(rc.pset_seq(st, row_dabs(y, x0, x1, f)).0, rc.width as int, px, py)
                == rplace_pixel(rc, st.0, y, y + 1, x0, x1, f, px, py),
    decreases x1 - x0,
{
    let w = rc.width as int;
    let h = rc.height as int;
    if x1 > x0 {
        lemma_rplace_row(rc, st, y, x0, x1 - 1, f);
        let prev = row_dabs(y, x0, x1 - 1, f);
        let mid = rc.pset_seq(st, prev);
        if f(x1 - 1, y) is Some {
            let d = f(x1 - 1, y).unwrap();
            assert(d.0 == x1 - 1 && d.1 == y);
            assert(row_dabs(y, x0, x1, f) == prev.push(d));
            assert(prev.push(d).drop_last() =~= prev);
            if rc.in_bounds(x1 - 1, y) {
                let idx = rc.index_of(x1 - 1, y);
                lemma_index_in_bounds(w, h, x1 - 1, y);
                assert(pixel_at(mid.0, w, x1 - 1, y) == pixel_at(st.0, w, x1 - 1, y));
                assert(bg_at(mid.0, idx) == bg_at(st.0, idx));
                let o = op_color(rc.op, bg_at(mid.0, idx), d.2, rc.tint, rc.opacity);
                if o is Some {
                    lemma_write_pixel_at(mid.0, w, h, x1 - 1, y, o.unwrap());
                }
            }
        } else {
            assert(row_dabs(y, x0, x1, f) == prev);
        }
    }
}

/// Setting the dabs of an in-place fill over a rectangle of cells stores at each cell
/// with a dab what the operation gives over that cell's background, and changes no other
/// pixel.
pub proof fn lemma_rplace_region(rc: RCanvas, st: (Seq<u8>, int), y0: int, y1: int, x0: int, x1: int, f: spec_fn(int, int) -> Option<RDab>)
    requires
        st.0.len() == rc.width * rc.height * 4,
        in_place(f),
    ensures
        rc.pset_seq(st, region_dabs(y0, y1, x0, x1, f)).0.len() == st.0.len(),
        forall|px: int, py: int|
            rc.in_bounds(px, py) ==> #[trigger] pixel_at(rc.pset_seq(st, region_dabs(y0, y1, x0, x1, f)).0, rc.width as int, px, py)
                == rplace_pixel(rc, st.0, y0, y1, x0, x1, f, px, py),
    decreases y1 - y0,
{
    let w = rc.width as int;
    let h = rc.height as int;
    if y1 > y0 {
        lemma_rplace_region(rc, st, y0, y1 - 1, x0, x1, f);
        let prev = region_dabs(y0, y1 - 1, x0, x1, f);
        let mid = rc.pset_seq(st, prev);
        lemma_rplace_row(rc, mid, y1 - 1, x0, x1, f);
        lemma_pset_seq_concat(rc, st, prev, row_dabs(y1 - 1, x0, x1, f));
        assert forall|px: int, py: int| rc.in_bounds(px, py) implies #[trigger] pixel_at(
            rc.pset_seq(st, region_dabs(y0, y1, x0, x1, f)).0,
            w,
            px,
            py,
        ) == rplace_pixel(rc, st.0, y0, y1, x0, x1, f, px, py) by {
            if py == y1 - 1 && x0 <= px < x1 && f(px, py) is Some {
                lemma_index_in_bounds(w, h, px, py);
                assert(pixel_at(mid.0, w, px, py) == pixel_at(st.0, w, px, py));
                assert(bg_at(mid.0, rc.index_of(px, py)) == bg_at(st.0, rc.index_of(px, py)));
            }
        }
    }
}

/// Drawing a filled rectangle part by part into a partitioned rasterizer laid out as a grid
/// whose partitions draw as the whole does, each partition first refreshed from the whole
/// rasterizer, and copying the partitions back, gives the same pixels as drawing the
/// rectangle into the whole rasterizer, whatever the drawing operation: the partitioned
/// rectangle is the rectangle.
pub proof fn law_partitioned_rasterizer_rectangle(
    pr: PartitionedRasterizer,
    parts: Seq<Rasterizer>,
    x: int,
    y: int,
    rw: int,
    rh: int,
    c: Color,
)
    requires
        synced_grid(pr),
        parts.len() == pr.partitions@.len(),
        forall|k: int|
            0 <= k < parts.len() ==> (#[trigger] parts[k]).same_setup(pr.partitions@[k]) && parts[k].wf() && parts[k].color@
                == rrect_result_on(pr.partitions@[k].rcanvas(), refreshed(pr.rasterizer.color@, pr.rasterizer.width as int, pr.partitions@[k]), true, x - pr.partitions@[k].offset_x, y - pr.partitions@[k].offset_y, rw, rh, c).0,
    ensures
        rblit_back(pr.rasterizer.color@, pr.rasterizer.width as int, pr.rasterizer.height as int, parts) == rrect_result(
            pr.rasterizer,
            true,
            x,
            y,
            rw,
            rh,
            c,
        ).0,
{
    let w = pr.rasterizer.width as int;
    let h = pr.rasterizer.height as int;
    let rc = pr.rasterizer.rcanvas();
    let bx0 = r_clamp(x, 0, w);
    let bx1 = r_clamp(x + rw, 0, w);
    let by0 = r_clamp(y, 0, h);
    let by1 = r_clamp(y + rh, 0, h);
    assert(in_place(rsolid(c)));
    lemma_rplace_region(rc, pr.rasterizer.state(), by0, by1, bx0, bx1, rsolid(c));
    assert(rrect_dabs(rc, true, x, y, rw, rh, c) == region_dabs(by0, by1, bx0, bx1, rsolid(c)));
    let direct = rrect_result(pr.rasterizer, true, x, y, rw, rh, c).0;
    assert forall|k: int, lx: int, ly: int|
        0 <= k < parts.len() && 0 <= lx < parts[k].width && 0 <= ly < parts[k].height implies #[trigger] pixel_at(
        parts[k].color@,
        parts[k].width as int,
        lx,
        ly,
    ) == pixel_at(direct, w, parts[k].offset_x + lx, parts[k].offset_y + ly) by {
        let p = pr.partitions@[k];
        let prc = p.rcanvas();
        let ox = p.offset_x as int;
        let oy = p.offset_y as int;
        let cw = p.width as int;
        let ch = p.height as int;
        assert(parts[k].same_setup(p));
        assert(p.wf());
        lemma_tiled_inside(pr, k);
        lemma_refreshed_cell(pr, k, lx, ly);
        lemma_rplace_region(
            prc,
            refreshed(pr.rasterizer.color@, w, p),
            r_clamp(y - oy, 0, ch),
            r_clamp(y - oy + rh, 0, ch),
            r_clamp(x - ox, 0, cw),
            r_clamp(x - ox + rw, 0, cw),
            rsolid(c),
        );
        assert(rrect_dabs(prc, true, x - ox, y - oy, rw, rh, c) == region_dabs(
            r_clamp(y - oy, 0, ch),
            r_clamp(y - oy + rh, 0, ch),
            r_clamp(x - ox, 0, cw),
            r_clamp(x - ox + rw, 0, cw),
            rsolid(c),
        ));
        assert(prc.in_bounds(lx, ly));
        assert(rc.in_bounds(ox + lx, oy + ly));
    }
    lemma_tiled_copy_back(pr, parts, direct);
}

/// The pixel (px, py) of the pixels `pix` of canvas `rc` after the image positions from
/// (lx0, ly0) to (lx1, ly1) of `img` are drawn with `pimg` at (x, y): what the operation
/// stores over the pixel's background where the image pixel that lands there was drawn
/// and is not fully transparent, the pixel as it was otherwise.
pub open spec fn rimg_pixel(
    rc: RCanvas,
    pix: Seq<u8>,
    img: Rasterizer,
    x: int,
    y: int,
    ly0: int,
    ly1: int,
    lx0: int,
    lx1: int,
    px: int,
    py: int,
) -> Color {
    let pc = rpixel(img, px - x, py - y);
    if ly0 <= py - y < ly1 && lx0 <= px - x < lx1 && pc.a != 0 {
        match op_color(rc.op, bg_at(pix, rc.index_of(px, py)), pc, rc.tint, rc.opacity) {
            Some(o) => o,
            None => pixel_at(pix, rc.width as int, px, py),
        }
    } else {
        pixel_at(pix, rc.width as int, px, py)
    }
}

/// Drawing one row segment of an image with `pimg` stores at each pixel it lands on what
/// the operation gives over that pixel's background, and changes no other pixel.
pub proof fn lemma_rimg_row(rc: RCanvas, st: (Seq<u8>, int), img: Rasterizer, x: int, y: int, ly: int, lx0: int, lx1: int)
    requires
        st.0.len() == rc.width * rc.height * 4,
    ensures
        rc.pset_seq(st, row_dabs(ly, lx0, lx1, rimg_fill(img, x, y, rc.width as int, rc.height as int))).0.len() == st.0.len(),
        forall|px: int, py: int|
            rc.in_bounds(px, py) ==> #[trigger] pixel_at(
                rc.pset_seq(st, row_dabs(ly, lx0, lx1, rimg_fill(img, x, y, rc.width as int, rc.height as int))).0,
                rc.width as int,
                px,
                py,
            ) == rimg_pixel(rc, st.0, img, x, y, ly, ly + 1, lx0, lx1, px, py),
    decreases lx1 - lx0,
{
    let w = rc.width as int;
    let h = rc.height as int;
    let f = rimg_fill(img, x, y, w, h);
    if lx1 > lx0 {
        lemma_rimg_row(rc, st, img, x, y, ly, lx0, lx1 - 1);
        let prev = row_dabs(ly, lx0, lx1 - 1, f);
        let mid = rc.pset_seq(st, prev);
        let qx = x + lx1 - 1;
        let qy = y + ly;
        if f(lx1 - 1, ly) is Some {
            let d = f(lx1 - 1, ly).unwrap();
            assert(row_dabs(ly, lx0, lx1, f) == prev.push(d));
            assert(prev.push(d).drop_last() =~= prev);
            if rc.in_bounds(qx, qy) {
                let idx = rc.index_of(qx, qy);
                lemma_index_in_bounds(w, h, qx, qy);
                assert(pixel_at(mid.0, w, qx, qy) == pixel_at(st.0, w, qx, qy));
                assert(bg_at(mid.0, idx) == bg_at(st.0, idx));
                let o = op_color(rc.op, bg_at(mid.0, idx), d.2, rc.tint, rc.opacity);
                if o is Some {
                    lemma_write_pixel_at(mid.0, w, h, qx, qy, o.unwrap());
                }
            }
        } else {
            assert(row_dabs(ly, lx0, lx1, f) == prev);
        }
    }
}

/// Drawing the rows from `ly0` to `ly1` of an image with `pimg` stores at each pixel it
/// lands on what the operation gives over that pixel's background, and changes no other
/// pixel.
pub proof fn lemma_rimg_region(rc: RCanvas, st: (Seq<u8>, int), img: Rasterizer, x: int, y: int, ly0: int, ly1: int, lx0: int, lx1: int)
    requires
        st.0.len() == rc.width * rc.height * 4,
    ensures
        rc.pset_seq(st, region_dabs(ly0, ly1, lx0, lx1, rimg_fill(img, x, y, rc.width as int, rc.height as int))).0.len() == st.0.len(),
        forall|px: int, py: int|
            rc.in_bounds(px, py) ==> #[trigger] pixel_at(
                rc.pset_seq(st, region_dabs(ly0, ly1, lx0, lx1, rimg_fill(img, x, y, rc.width as int, rc.height as int))).0,
                rc.width as int,
                px,
                py,
            ) == rimg_pixel(rc, st.0, img, x, y, ly0, ly1, lx0, lx1, px, py),
    decreases ly1 - ly0,
{
    let w = rc.width as int;
    let h = rc.height as int;
    let f = rimg_fill(img, x, y, w, h);
    if ly1 > ly0 {
        lemma_rimg_region(rc, st, img, x, y, ly0, ly1 - 1, lx0, lx1);
        let prev = region_dabs(ly0, ly1 - 1, lx0, lx1, f);
        let mid = rc.pset_seq(st, prev);
        lemma_rimg_row(rc, mid, img, x, y, ly1 - 1, lx0, lx1);
        lemma_pset_seq_concat(rc, st, prev, row_dabs(ly1 - 1, lx0, lx1, f));
        assert forall|px: int, py: int| rc.in_bounds(px, py) implies #[trigger] pixel_at(
            rc.pset_seq(st, region_dabs(ly0, ly1, lx0, lx1, f)).0,
            w,
            px,
            py,
        ) == rimg_pixel(rc, st.0, img, x, y, ly0, ly1, lx0, lx1, px, py) by {
            if py - y == ly1 - 1 && lx0 <= px - x < lx1 {
                lemma_index_in_bounds(w, h, px, py);
                assert(pixel_at(mid.0, w, px, py) == pixel_at(st.0, w, px, py));
                assert(bg_at(mid.0, rc.index_of(px, py)) == bg_at(st.0, rc.index_of(px, py)));
            }
        }
    }
}

/// Drawing an image part by part into a partitioned rasterizer laid out as a grid whose
/// partitions draw as the whole does, each partition first refreshed from the whole
/// rasterizer, and copying the partitions back, gives the same pixels as drawing the image
/// into the whole rasterizer, whatever the drawing operation: the partitioned image is the
/// image.
pub proof fn law_partitioned_rasterizer_image(pr: PartitionedRasterizer, parts: Seq<Rasterizer>, img: Rasterizer, x: int, y: int)
    requires
        synced_grid(pr),
        parts.len() == pr.partitions@.len(),
        forall|k: int|
            0 <= k < parts.len() ==> (#[trigger] parts[k]).same_setup(pr.partitions@[k]) && parts[k].wf() && parts[k].color@
                == rimg_result_on(pr.partitions@[k].rcanvas(), refreshed(pr.rasterizer.color@, pr.rasterizer.width as int, pr.partitions@[k]), img, x - pr.partitions@[k].offset_x, y - pr.partitions@[k].offset_y).0,
    ensures
        rblit_back(pr.rasterizer.color@, pr.rasterizer.width as int, pr.rasterizer.height as int, parts) == rimg_result(
            pr.rasterizer,
            img,
            x,
            y,
        ).0,
{
    let w = pr.rasterizer.width as int;
    let h = pr.rasterizer.height as int;
    let rc = pr.rasterizer.rcanvas();
    let iw = img.width as int;
    let ih = img.height as int;
    lemma_rimg_region(rc, pr.rasterizer.state(), img, x, y, 0, ih, 0, iw);
    let direct = rimg_result(pr.rasterizer, img, x, y).0;
    assert forall|k: int, lx: int, ly: int|
        0 <= k < parts.len() && 0 <= lx < parts[k].width && 0 <= ly < parts[k].height implies #[trigger] pixel_at(
        parts[k].color@,
        parts[k].width as int,
        lx,
        ly,
    ) == pixel_at(direct, w, parts[k].offset_x + lx, parts[k].offset_y + ly) by {
        let p = pr.partitions@[k];
        let prc = p.rcanvas();
        let ox = p.offset_x as int;
        let oy = p.offset_y as int;
        assert(parts[k].same_setup(p));
        assert(p.wf());
        lemma_tiled_inside(pr, k);
        lemma_refreshed_cell(pr, k, lx, ly);
        lemma_rimg_region(prc, refreshed(pr.rasterizer.color@, w, p), img, x - ox, y - oy, 0, ih, 0, iw);
        assert(prc.in_bounds(lx, ly));
        assert(rc.in_bounds(ox + lx, oy + ly));
        assert(lx - (x - ox) == (ox + lx) - x);
        assert(ly - (y - oy) == (oy + ly) - y);
    }
    lemma_tiled_copy_back(pr, parts, direct);
}

/// Drawing a filled circle part by part into a partitioned rasterizer laid out as a grid
/// whose partitions draw as the whole does, each partition first refreshed from the whole
/// rasterizer, and copying the partitions back, gives the same pixels as drawing the
/// circle into the whole rasterizer, whatever the drawing operation: the partitioned disc
/// is the disc.
pub proof fn law_partitioned_rasterizer_disc(pr: PartitionedRasterizer, parts: Seq<Rasterizer>, xc: int, yc: int, r: int, c: Color)
    requires
        synced_grid(pr),
        parts.len() == pr.partitions@.len(),
        forall|k: int|
            0 <= k < parts.len() ==> (#[trigger] parts[k]).same_setup(pr.partitions@[k]) && parts[k].wf() && parts[k].color@
                == rcircle_result_on(pr.partitions@[k].rcanvas(), refreshed(pr.rasterizer.color@, pr.rasterizer.width as int, pr.partitions@[k]), true, xc - pr.partitions@[k].offset_x, yc - pr.partitions@[k].offset_y, r, c).0,
    ensures
        rblit_back(pr.rasterizer.color@, pr.rasterizer.width as int, pr.rasterizer.height as int, parts) == rcircle_result(
            pr.rasterizer,
            true,
            xc,
            yc,
            r,
            c,
        ).0,
{
    let w = pr.rasterizer.width as int;
    let h = pr.rasterizer.height as int;
    let rc = pr.rasterizer.rcanvas();
    let bx = rcircle_box(rc, xc, yc, r);
    let f = rdisc_fill(xc, yc, r, c);
    assert(in_place(f));
    lemma_rplace_region(rc, pr.rasterizer.state(), bx.2, bx.3, bx.0, bx.1, f);
    let direct = rcircle_result(pr.rasterizer, true, xc, yc, r, c).0;
    assert forall|k: int, lx: int, ly: int|
        0 <= k < parts.len() && 0 <= lx < parts[k].width && 0 <= ly < parts[k].height implies #[trigger] pixel_at(
        parts[k].color@,
        parts[k].width as int,
        lx,
        ly,
    ) == pixel_at(direct, w, parts[k].offset_x + lx, parts[k].offset_y + ly) by {
        let p = pr.partitions@[k];
        let prc = p.rcanvas();
        let ox = p.offset_x as int;
        let oy = p.offset_y as int;
        let pb = rcircle_box(prc, xc - ox, yc - oy, r);
        let pf = rdisc_fill(xc - ox, yc - oy, r, c);
        assert(parts[k].same_setup(p));
        assert(p.wf());
        assert(in_place(pf));
        lemma_tiled_inside(pr, k);
        lemma_refreshed_cell(pr, k, lx, ly);
        lemma_rplace_region(prc, refreshed(pr.rasterizer.color@, w, p), pb.2, pb.3, pb.0, pb.1, pf);
        assert(prc.in_bounds(lx, ly));
        assert(rc.in_bounds(ox + lx, oy + ly));
        assert(lx - (xc - ox) == (ox + lx) - xc);
        assert(ly - (yc - oy) == (oy + ly) - yc);
        assert(pf(lx, ly) is Some <==> f(ox + lx, oy + ly) is Some);
    }
    lemma_tiled_copy_back(pr, parts, direct);
}

/// A freshly split partitioned rasterizer whose whole draws opaquely with a white tint at
/// full opacity, as `new` makes it, is laid out as its grid with every partition drawing
/// as the whole does.
pub proof fn lemma_fresh_synced(pr: PartitionedRasterizer)
    requires
        pr.wf(),
        pr.partitioned(),
        pr.rasterizer.draw_op() == PSetOp::Opaque,
        pr.rasterizer.tint == (Color { r: 255, g: 255, b: 255, a: 255 }),
        pr.rasterizer.opacity == 255,
    ensures
        synced_grid(pr),
{
    let (nx, ny) = scheme_grid(pr.scheme);
    let w = pr.rasterizer.width as int;
    let h = pr.rasterizer.height as int;
    assert forall|k: int| 0 <= k < pr.partitions@.len() implies {
        let p = #[trigger] pr.partitions@[k];
        &&& grid_rcell(p, w, h, nx, ny, k)
        &&& p.draw_op() == pr.rasterizer.draw_op()
        &&& p.tint == pr.rasterizer.tint
        &&& p.opacity == pr.rasterizer.opacity
    } by {
        let p = pr.partitions@[k];
        assert(fresh_rpartition(p, cell_len(w, nx, k % nx), cell_len(h, ny, k / nx), (k % nx) * (w / nx), (k / nx) * (h / ny)));
    }
}

/// Partitions that have all been cleared have counted no pixels together: after `clear`
/// or `clear_color`, `get_pixels_since_clear` is 0.
pub proof fn law_cleared_counts_nothing(parts: Seq<Rasterizer>)
    requires
        forall|k: int| 0 <= k < parts.len() ==> (#[trigger] parts[k]).drawn_pixels_since_clear == 0,
    ensures
        rcount_sum(parts) == 0,
    decreases parts.len(),
{
    if parts.len() > 0 {
        let q = parts.drop_last();
        assert forall|k: int| 0 <= k < q.len() implies (#[trigger] q[k]).drawn_pixels_since_clear == 0 by {
            assert(q[k] == parts[k]);
        }
        law_cleared_counts_nothing(q);
        assert(parts.last() == parts[parts.len() - 1]);
    }
}

} // verus!
