//! A buffer split into partitions, so that large drawing operations can be done part by
//! part (the parts can be drawn on different threads) and copied back into the whole.
use vstd::prelude::*;
use crate::color::Color;
use crate::buffer::{Buffer, BufferShader, Canvas, filled_with, lemma_plot_seq_concat, pixel_at};
use crate::region::Dab;
use crate::stack::sort_by_order;
use crate::shapes::{line_dabs, line_fits, min3, max3};
use crate::draw::{clamp_spec, clamp_i32};
use crate::compose::blit_bytes_pix;
use crate::draw::{rect_req, rect_result, img_req, img_result, imgrect_req, imgrect_result, rect_req_on, rect_result_on, circle_req_on, circle_result_on, img_req_on, img_result_on, imgrect_req_on, imgrect_result_on};
use crate::math::fits_i32;
use crate::draw::image_fits;
use crate::laws::{in_cell, in_some_partition, law_partitions_tile, plain_parts, drawing_parts, law_partitioned_rectangle, law_partitioned_disc, law_partitioned_image, law_partitioned_circle_outline};

verus! {

/// How a buffer is split into partitions: columns by rows.
#[derive(Debug, Clone, Copy, PartialEq, Eq, Structural)]
pub enum PartitionScheme {
    Full,
    Split2x1,
    Split1x2,
    Split2x2,
    Split3x1,
    Split3x2,
    Split3x3,
    Split4x4,
    Split5x5,
    Split8x8,
}

/// How large, in pixels, an area must be before a drawing operation is split across the
/// partitions and run in parallel; below it the extra setup does not pay off.
#[derive(Debug, Clone, Copy, PartialEq, Eq, Structural)]
pub enum BoundingParallelThreshold {
    Always,
    High,
    Medium,
    Low,
    VeryLow,
}

impl BoundingParallelThreshold {
    /// The threshold in pixels: 0, 8192, 16384, 32768 and 65536.
    pub fn pixels(self) -> (n: u32)
        ensures
            n == match self {
                BoundingParallelThreshold::Always => 0u32,
                BoundingParallelThreshold::High => 8192u32,
                BoundingParallelThreshold::Medium => 16384u32,
                BoundingParallelThreshold::Low => 32768u32,
                BoundingParallelThreshold::VeryLow => 65536u32,
            },
    {
        match self {
            BoundingParallelThreshold::Always => 0,
            BoundingParallelThreshold::High => 8192,
            BoundingParallelThreshold::Medium => 16384,
            BoundingParallelThreshold::Low => 32768,
            BoundingParallelThreshold::VeryLow => 65536,
        }
    }
}

/// The number of columns and rows of partitions of a scheme. `Split2x1` stacks two
/// partitions vertically and `Split1x2` puts two side by side; `Split3x1` makes three
/// columns and `Split3x2` three columns by two rows.
pub open spec fn scheme_grid(scheme: PartitionScheme) -> (int, int) {
    match scheme {
        PartitionScheme::Full => (1, 1),
        PartitionScheme::Split2x1 => (1, 2),
        PartitionScheme::Split1x2 => (2, 1),
        PartitionScheme::Split2x2 => (2, 2),
        PartitionScheme::Split3x1 => (3, 1),
        PartitionScheme::Split3x2 => (3, 2),
        PartitionScheme::Split3x3 => (3, 3),
        PartitionScheme::Split4x4 => (4, 4),
        PartitionScheme::Split5x5 => (5, 5),
        PartitionScheme::Split8x8 => (8, 8),
    }
}

/// The scheme chosen for a number of CPUs: one partition per core where a grid fits, and
/// an 8 by 8 grid beyond 24 cores. Two cores split across the longer side.
pub open spec fn scheme_for_spec(cpu_count: int, width: int, height: int) -> PartitionScheme {
    if cpu_count == 1 {
        PartitionScheme::Full
    } else if cpu_count == 2 {
        if height > width {
            PartitionScheme::Split2x1
        } else {
            PartitionScheme::Split1x2
        }
    } else if cpu_count == 3 {
        PartitionScheme::Split3x1
    } else if cpu_count == 4 || cpu_count == 5 {
        PartitionScheme::Split2x2
    } else if cpu_count == 6 {
        PartitionScheme::Split3x2
    } else if cpu_count == 8 || cpu_count == 10 {
        PartitionScheme::Split3x3
    } else if cpu_count == 12 || cpu_count == 16 {
        PartitionScheme::Split4x4
    } else if cpu_count == 20 || cpu_count == 24 {
        PartitionScheme::Split5x5
    } else if cpu_count > 24 {
        PartitionScheme::Split8x8
    } else {
        PartitionScheme::Split4x4
    }
}

/// `p` is a fresh partition: a blank buffer of `cw` by `ch` pixels placed at (ox, oy).
pub open spec fn fresh_partition(p: Buffer, cw: int, ch: int, ox: int, oy: int) -> bool {
    &&& p.wf()
    &&& p.width == cw
    &&& p.height == ch
    &&& p.offset_x == ox
    &&& p.offset_y == oy
    &&& p.is_drawing
    &&& p.shader_stack@.len() == 0
    &&& p.color@ == Seq::new((cw * ch * 4) as nat, |i: int| 0u8)
}

/// The size of cell `i` when `total` pixels are split into `n` cells: `total / n`, the
/// last cell taking the remainder as well.
pub open spec fn cell_len(total: int, n: int, i: int) -> int {
    if i == n - 1 {
        total - (n - 1) * (total / n)
    } else {
        total / n
    }
}

/// The partitions of a `width` by `height` buffer split into `nx` columns and `ny` rows,
/// in row-major order: the cell in column x and row y is placed at
/// `(x * (width / nx), y * (height / ny))` and is `width / nx` by `height / ny` pixels,
/// but for the last column and the last row, which reach the right and bottom edges.
pub open spec fn grid_partitions(parts: Seq<Buffer>, width: int, height: int, nx: int, ny: int) -> bool {
    &&& parts.len() == nx * ny
    &&& forall|k: int|
        0 <= k < parts.len() ==> fresh_partition(
            #[trigger] parts[k],
            cell_len(width, nx, k % nx),
            cell_len(height, ny, k / nx),
            (k % nx) * (width / nx),
            (k / nx) * (height / ny),
        )
}

/// `p` is cell number `k` of a `width` by `height` buffer split into `nx` columns and `ny`
/// rows, whatever pixels it holds.
pub open spec fn grid_cell(p: Buffer, width: int, height: int, nx: int, ny: int, k: int) -> bool {
    &&& p.wf()
    &&& p.width == cell_len(width, nx, k % nx)
    &&& p.height == cell_len(height, ny, k / nx)
    &&& p.offset_x == (k % nx) * (width / nx)
    &&& p.offset_y == (k / nx) * (height / ny)
}

/// The partitions are the cells of a `width` by `height` buffer split into `nx` columns
/// and `ny` rows, in row-major order, whatever pixels they hold.
pub open spec fn grid_layout(parts: Seq<Buffer>, width: int, height: int, nx: int, ny: int) -> bool {
    &&& parts.len() == nx * ny
    &&& forall|k: int| 0 <= k < parts.len() ==> grid_cell(#[trigger] parts[k], width, height, nx, ny, k)
}

/// The `pw` by `ph` pixels at (ox, oy) of a buffer `w` pixels wide holding `pix`, row by
/// row.
pub open spec fn cell_bytes(pix: Seq<u8>, w: int, ox: int, oy: int, pw: int, ph: int) -> Seq<u8> {
    Seq::new((pw * ph * 4) as nat, |i: int| pix[((oy + (i / 4) / pw) * w + ox + (i / 4) % pw) * 4 + i % 4])
}

/// The pixels that the partition `p` covers in a buffer `w` pixels wide holding `pix`: the
/// pixels a partition holds once it has been refreshed from the whole buffer.
pub open spec fn cell_pixels(pix: Seq<u8>, w: int, p: Buffer) -> Seq<u8> {
    cell_bytes(pix, w, p.offset_x as int, p.offset_y as int, p.width as int, p.height as int)
}

/// Byte `c` of pixel (lx, ly) of a row-major buffer `pw` pixels wide.
pub proof fn lemma_cell_index(pw: int, lx: int, ly: int, c: int)
    requires
        0 <= lx < pw,
        0 <= ly,
        0 <= c < 4,
    ensures
        ((ly * pw + lx) * 4 + c) / 4 == ly * pw + lx,
        ((ly * pw + lx) * 4 + c) % 4 == c,
        (ly * pw + lx) / pw == ly,
        (ly * pw + lx) % pw == lx,
{
    let q = ly * pw + lx;
    assert((ly * pw + lx) * 4 + c == q * 4 + c) by (nonlinear_arith)
        requires
            q == ly * pw + lx,
    ;
    vstd::arithmetic::div_mod::lemma_fundamental_div_mod_converse((ly * pw + lx) * 4 + c, 4, q, c);
    vstd::arithmetic::div_mod::lemma_fundamental_div_mod_converse(q, pw, ly, lx);
}

/// Pixel (lx, ly) of the `pw` by `ph` pixels at (ox, oy) is pixel (ox + lx, oy + ly) of
/// the whole buffer, byte by byte.
pub proof fn lemma_cell_bytes(pix: Seq<u8>, w: int, ox: int, oy: int, pw: int, ph: int, lx: int, ly: int)
    requires
        0 <= lx < pw,
        0 <= ly < ph,
    ensures
        cell_bytes(pix, w, ox, oy, pw, ph).len() == pw * ph * 4,
        forall|c: int|
            0 <= c < 4 ==> #[trigger] cell_bytes(pix, w, ox, oy, pw, ph)[(ly * pw + lx) * 4 + c] == pix[((oy + ly) * w + ox + lx) * 4 + c],
        pixel_at(cell_bytes(pix, w, ox, oy, pw, ph), pw, lx, ly) == pixel_at(pix, w, ox + lx, oy + ly),
{
    let cp = cell_bytes(pix, w, ox, oy, pw, ph);
    let q = ly * pw + lx;
    let j = ((oy + ly) * w + ox + lx) * 4;
    crate::buffer::lemma_index_in_bounds(pw, ph, lx, ly);
    assert forall|c: int| 0 <= c < 4 implies #[trigger] cp[(ly * pw + lx) * 4 + c] == pix[((oy + ly) * w + ox + lx) * 4 + c] by {
        lemma_cell_index(pw, lx, ly, c);
    }
    assert(cp[q * 4] == pix[j]) by {
        lemma_cell_index(pw, lx, ly, 0);
    }
    assert(cp[q * 4 + 1] == pix[j + 1]) by {
        lemma_cell_index(pw, lx, ly, 1);
    }
    assert(cp[q * 4 + 2] == pix[j + 2]) by {
        lemma_cell_index(pw, lx, ly, 2);
    }
    assert(cp[q * 4 + 3] == pix[j + 3]) by {
        lemma_cell_index(pw, lx, ly, 3);
    }
}

/// Pixel (lx, ly) of the pixels a partition covers is pixel (lx, ly) of its cell of the
/// whole buffer.
pub proof fn lemma_cell_pixel(pix: Seq<u8>, w: int, p: Buffer, lx: int, ly: int)
    requires
        0 <= lx < p.width,
        0 <= ly < p.height,
    ensures
        cell_pixels(pix, w, p).len() == p.width * p.height * 4,
        pixel_at(cell_pixels(pix, w, p), p.width as int, lx, ly) == pixel_at(pix, w, p.offset_x + lx, p.offset_y + ly),
{
    lemma_cell_bytes(pix, w, p.offset_x as int, p.offset_y as int, p.width as int, p.height as int, lx, ly);
}

/// Copies the `pw` by `ph` pixels at (ox, oy) out of the `w` by `h` pixels `src`.
pub(crate) fn crop_cell(src: &Vec<u8>, w: usize, h: usize, ox: usize, oy: usize, pw: usize, ph: usize) -> (v: Vec<u8>)
    requires
        src@.len() == w * h * 4,
        ox + pw <= w,
        oy + ph <= h,
    ensures
        v@ == cell_bytes(src@, w as int, ox as int, oy as int, pw as int, ph as int),
{
    let ghost pix: Seq<u8> = src@;
    let ghost cp: Seq<u8> = cell_bytes(pix, w as int, ox as int, oy as int, pw as int, ph as int);
    let mut v: Vec<u8> = Vec::new();
    let mut ly: usize = 0;
    while ly < ph
        invariant
            src@ == pix,
            ox + pw <= w,
            oy + ph <= h,
            pix.len() == w * h * 4,
            cp == cell_bytes(pix, w as int, ox as int, oy as int, pw as int, ph as int),
            ly <= ph,
            v@.len() == (ly * pw) * 4,
            forall|j: int| 0 <= j < v@.len() ==> #[trigger] v@[j] == cp[j],
        decreases ph - ly,
    {
        let mut lx: usize = 0;
        while lx < pw
            invariant
                src@ == pix,
                ox + pw <= w,
                oy + ph <= h,
                pix.len() == w * h * 4,
                cp == cell_bytes(pix, w as int, ox as int, oy as int, pw as int, ph as int),
                ly < ph,
                lx <= pw,
                v@.len() == (ly * pw + lx) * 4,
                forall|j: int| 0 <= j < v@.len() ==> #[trigger] v@[j] == cp[j],
            decreases pw - lx,
        {
            proof {
                crate::buffer::lemma_index_in_bounds(w as int, h as int, (ox + lx) as int, (oy + ly) as int);
                crate::buffer::lemma_index_in_bounds(pw as int, ph as int, lx as int, ly as int);
                assert(src@.len() == src.len());
                assert((oy + ly) * w <= ((oy + ly) * w + ox + lx) * 4);
            }
            let base: usize = ((oy + ly) * w + ox + lx) * 4;
            let ghost q: int = (ly * pw + lx) as int;
            let ghost before: Seq<u8> = v@;
            v.push(src[base]);
            v.push(src[base + 1]);
            v.push(src[base + 2]);
            v.push(src[base + 3]);
            proof {
                lemma_cell_bytes(pix, w as int, ox as int, oy as int, pw as int, ph as int, lx as int, ly as int);
                assert(v@.len() == q * 4 + 4);
                assert(cp[(ly * pw + lx) * 4 + 0] == pix[((oy + ly) * w + ox + lx) * 4 + 0]);
                assert(cp[(ly * pw + lx) * 4 + 1] == pix[((oy + ly) * w + ox + lx) * 4 + 1]);
                assert(cp[(ly * pw + lx) * 4 + 2] == pix[((oy + ly) * w + ox + lx) * 4 + 2]);
                assert(cp[(ly * pw + lx) * 4 + 3] == pix[((oy + ly) * w + ox + lx) * 4 + 3]);
                assert forall|j: int| 0 <= j < v@.len() implies #[trigger] v@[j] == cp[j] by {
                    if j < q * 4 {
                        assert(v@[j] == before[j]);
                    }
                }
                assert((ly * pw + lx + 1) * 4 == q * 4 + 4) by (nonlinear_arith)
                    requires
                        q == ly * pw + lx,
                ;
            }
            lx = lx + 1;
        }
        proof {
            assert((ly * pw + pw) * 4 == ((ly + 1) * pw) * 4) by (nonlinear_arith);
        }
        ly = ly + 1;
    }
    proof {
        assert(v@.len() == cp.len()) by {
            assert((ph * pw) * 4 == pw * ph * 4) by (nonlinear_arith);
        }
        assert(v@ =~= cp);
    }
    v
}

/// The two buffers differ at most in their shaders.
pub open spec fn same_but_shaders(a: Buffer, b: Buffer) -> bool {
    &&& a.color@ == b.color@
    &&& a.width == b.width
    &&& a.height == b.height
    &&& a.offset_x == b.offset_x
    &&& a.offset_y == b.offset_y
    &&& a.is_drawing == b.is_drawing
}

/// The bytes `pix` of a `w` by `h` buffer after each partition of `parts` in turn is
/// copied back into it at its offset.
pub open spec fn blit_back(pix: Seq<u8>, w: int, h: int, parts: Seq<Buffer>) -> Seq<u8>
    decreases parts.len(),
{
    if parts.len() == 0 {
        pix
    } else {
        let p = parts.last();
        blit_bytes_pix(blit_back(pix, w, h, parts.drop_last()), w, h, p, p.offset_x as int, p.offset_y as int)
    }
}

/// The area of the bounding box of the triangle (x0, y0), (x1, y1), (x2, y2), clamped to a
/// `w` by `h` buffer.
pub open spec fn triangle_box_area(w: int, h: int, x0: int, y0: int, x1: int, y1: int, x2: int, y2: int) -> int {
    (clamp_spec(max3(x0, x1, x2), 0, w) - clamp_spec(min3(x0, x1, x2), 0, w)) * (clamp_spec(max3(y0, y1, y2), 0, h) - clamp_spec(
        min3(y0, y1, y2),
        0,
        h,
    ))
}

/// `prectangle` on a partitioned buffer draws part by part: a filled rectangle of at least
/// `threshold` pixels, with a threshold that is not 0.
pub open spec fn parallel_rect(pb: PartitionedBuffer, filled: bool, width: int, height: int) -> bool {
    filled && pb.threshold != 0 && width * height >= (pb.threshold as i32) as int
}

/// `pimg` and `pimgrect` on a partitioned buffer draw part by part: an image of at least
/// `threshold` pixels, with a threshold that is not 0.
pub open spec fn parallel_image(pb: PartitionedBuffer, image: Buffer) -> bool {
    pb.threshold != 0 && image.width * image.height >= (pb.threshold as i32) as int
}

/// The dabs of the outlines that `draw_debug_view` draws: for each partition, its top
/// edge and then its left edge, in magenta.
pub open spec fn debug_dabs(parts: Seq<Buffer>) -> Seq<Dab>
    decreases parts.len(),
{
    if parts.len() == 0 {
        Seq::empty()
    } else {
        let p = parts.last();
        let c = Color { r: 255, g: 0, b: 255, a: 255 };
        debug_dabs(parts.drop_last()) + line_dabs(p.offset_x as int, p.offset_y as int, p.offset_x + p.width, p.offset_y as int, c)
            + line_dabs(p.offset_x as int, p.offset_y as int, p.offset_x as int, p.offset_y + p.height, c)
    }
}

/// The debug outlines of the first `i` partitions come first among those of all of them.
pub proof fn lemma_debug_dabs_prefix(parts: Seq<Buffer>, i: int)
    requires
        0 <= i <= parts.len(),
    ensures
        debug_dabs(parts) == debug_dabs(parts.take(i)) + debug_dabs(parts).subrange(debug_dabs(parts.take(i)).len() as int, debug_dabs(parts).len() as int),
        debug_dabs(parts.take(i)).len() <= debug_dabs(parts).len(),
    decreases parts.len() - i,
{
    if i == parts.len() {
        assert(parts.take(i) =~= parts);
        assert(debug_dabs(parts) =~= debug_dabs(parts.take(i)) + debug_dabs(parts).subrange(debug_dabs(parts.take(i)).len() as int, debug_dabs(parts).len() as int));
    } else {
        lemma_debug_dabs_prefix(parts, i + 1);
        let t = parts.take(i + 1);
        assert(t.drop_last() =~= parts.take(i));
        let d_i = debug_dabs(parts.take(i));
        let d_i1 = debug_dabs(t);
        let all = debug_dabs(parts);
        assert(d_i1 == d_i + (d_i1.subrange(d_i.len() as int, d_i1.len() as int))) by {
            assert(d_i1 =~= d_i + d_i1.subrange(d_i.len() as int, d_i1.len() as int));
        }
        assert(all =~= d_i + all.subrange(d_i.len() as int, all.len() as int));
    }
}

/// Returns the number of logical CPUs of this machine. `num_cpus::get` documents that it
/// always returns at least 1; nothing else is known of the result.
#[verifier::external_body]
pub(crate) fn cpu_count() -> (n: usize)
    ensures
        n >= 1,
{
    num_cpus::get()
}

/// A Buffer that allows for parallel rendering by partitioning the image into smaller
/// pieces, usually by how many cores the current CPU has.
pub struct PartitionedBuffer {
    pub buffer: Buffer,
    pub partitions: Vec<Buffer>,
    pub scheme: PartitionScheme,
    pub threshold: u32,
}

impl PartitionedBuffer {
    pub const PARALLEL_THRESHOLD_DEFAULT: u32 = 65536;

    /// The whole buffer and every partition are well formed.
    pub open spec fn wf(self) -> bool {
        &&& self.buffer.wf()
        &&& forall|k: int| 0 <= k < self.partitions@.len() ==> (#[trigger] self.partitions@[k]).wf()
    }

    /// The partitions are the grid of the current scheme over the whole buffer.
    pub open spec fn partitioned(self) -> bool {
        grid_partitions(
            self.partitions@,
            self.buffer.width as int,
            self.buffer.height as int,
            scheme_grid(self.scheme).0,
            scheme_grid(self.scheme).1,
        )
    }

    /// The partitions are laid out as the grid of the current scheme over the whole buffer,
    /// whatever pixels they hold.
    pub open spec fn gridded(self) -> bool {
        &&& self.wf()
        &&& grid_layout(
            self.partitions@,
            self.buffer.width as int,
            self.buffer.height as int,
            scheme_grid(self.scheme).0,
            scheme_grid(self.scheme).1,
        )
    }

    /// The scheme for a number of CPUs on a buffer of the given size.
    pub fn scheme_for(cpu_count: usize, width: usize, height: usize) -> (s: PartitionScheme)
        ensures
            s == scheme_for_spec(cpu_count as int, width as int, height as int),
    {
        let mut is_unknown: bool = false;
        let mut scheme: PartitionScheme = match cpu_count {
            1 => PartitionScheme::Full,
            2 => {
                if height > width {
                    PartitionScheme::Split2x1
                } else {
                    PartitionScheme::Split1x2
                }
            },
            3 => PartitionScheme::Split3x1,
            4 => PartitionScheme::Split2x2,
            5 => PartitionScheme::Split2x2,
            6 => PartitionScheme::Split3x2,
            8 => PartitionScheme::Split3x3,
            10 => PartitionScheme::Split3x3,
            12 => PartitionScheme::Split4x4,
            16 => PartitionScheme::Split4x4,
            20 => PartitionScheme::Split5x5,
            24 => PartitionScheme::Split5x5,
            _ => {
                is_unknown = true;
                PartitionScheme::Split4x4
            },
        };
        if is_unknown {
            if cpu_count > 24 {
                scheme = PartitionScheme::Split8x8;
            }
        }
        scheme
    }

    /// Splits the buffer into `nx` by `ny` fresh partitions, replacing the old ones.
    fn partition_grid(&mut self, nx: usize, ny: usize)
        requires
            old(self).buffer.wf(),
            1 <= nx <= 8,
            1 <= ny <= 8,
        ensures
            final(self).buffer == old(self).buffer,
            final(self).scheme == old(self).scheme,
            final(self).threshold == old(self).threshold,
            final(self).wf(),
            grid_partitions(final(self).partitions@, old(self).buffer.width as int, old(self).buffer.height as int, nx as int, ny as int),
    {
        self.partitions.clear();
        let cell_x: usize = self.buffer.width / nx;
        let cell_y: usize = self.buffer.height / ny;
        let ghost w: int = self.buffer.width as int;
        let ghost h: int = self.buffer.height as int;
        proof {
            assert(cell_x * nx <= w && cell_y * ny <= h) by (nonlinear_arith)
                requires
                    cell_x == w / nx as int,
                    cell_y == h / ny as int,
                    nx >= 1,
                    ny >= 1,
                    w >= 0,
                    h >= 0,
            ;
        }
        let mut y: usize = 0;
        while y < ny
            invariant
                self.buffer == old(self).buffer,
                self.scheme == old(self).scheme,
                self.threshold == old(self).threshold,
                w == self.buffer.width,
                h == self.buffer.height,
                self.buffer.wf(),
                cell_x == w / nx as int,
                cell_y == h / ny as int,
                cell_x * nx <= w,
                cell_y * ny <= h,
                1 <= nx <= 8,
                1 <= ny <= 8,
                y <= ny,
                self.partitions@.len() == y * nx,
                forall|k: int| 0 <= k < self.partitions@.len() ==> (#[trigger] self.partitions@[k]).wf(),
                forall|k: int|
                    0 <= k < self.partitions@.len() ==> fresh_partition(
                        #[trigger] self.partitions@[k],
                        cell_len(w, nx as int, k % nx as int),
                        cell_len(h, ny as int, k / nx as int),
                        (k % nx as int) * cell_x,
                        (k / nx as int) * cell_y,
                    ),
            decreases ny - y,
        {
            let mut x: usize = 0;
            while x < nx
                invariant
                    self.buffer == old(self).buffer,
                    self.scheme == old(self).scheme,
                    self.threshold == old(self).threshold,
                    w == self.buffer.width,
                    h == self.buffer.height,
                    self.buffer.wf(),
                    cell_x == w / nx as int,
                    cell_y == h / ny as int,
                    cell_x * nx <= w,
                    cell_y * ny <= h,
                    1 <= nx <= 8,
                    1 <= ny <= 8,
                    y < ny,
                    x <= nx,
                    self.partitions@.len() == y * nx + x,
                    forall|k: int| 0 <= k < self.partitions@.len() ==> (#[trigger] self.partitions@[k]).wf(),
                    forall|k: int|
                        0 <= k < self.partitions@.len() ==> fresh_partition(
                            #[trigger] self.partitions@[k],
                            cell_len(w, nx as int, k % nx as int),
                            cell_len(h, ny as int, k / nx as int),
                            (k % nx as int) * cell_x,
                            (k / nx as int) * cell_y,
                        ),
                decreases nx - x,
            {
                proof {
                    assert(cell_x * x <= cell_x * nx && cell_x * (nx - 1) <= cell_x * nx) by (nonlinear_arith)
                        requires
                            x < nx,
                    ;
                    assert(cell_y * y <= cell_y * ny && cell_y * (ny - 1) <= cell_y * ny) by (nonlinear_arith)
                        requires
                            y < ny,
                    ;
                }
                let pw: usize = if x + 1 == nx {
                    self.buffer.width - cell_x * (nx - 1)
                } else {
                    cell_x
                };
                let ph: usize = if y + 1 == ny {
                    self.buffer.height - cell_y * (ny - 1)
                } else {
                    cell_y
                };
                proof {
                    assert(cell_x <= w && cell_y <= h) by (nonlinear_arith)
                        requires
                            cell_x * nx <= w,
                            cell_y * ny <= h,
                            nx >= 1,
                            ny >= 1,
                    ;
                    assert(cell_x * (nx - 1) >= 0 && cell_y * (ny - 1) >= 0) by (nonlinear_arith)
                        requires
                            nx >= 1,
                            ny >= 1,
                    ;
                    assert(pw * ph * 4 <= w * h * 4) by (nonlinear_arith)
                        requires
                            0 <= pw <= w,
                            0 <= ph <= h,
                    ;
                    assert(self.buffer.color@.len() == w * h * 4);
                    assert(self.buffer.color.len() <= usize::MAX);
                }
                let mut r: Buffer = Buffer::new(pw, ph);
                r.offset_x = cell_x * x;
                r.offset_y = cell_y * y;
                proof {
                    let k = (y * nx + x) as int;
                    assert(k % nx as int == x && k / nx as int == y) by (nonlinear_arith)
                        requires
                            k == y * nx + x,
                            0 <= x < nx,
                            0 <= y,
                    ;
                    assert(cell_x * x == x * cell_x) by (nonlinear_arith);
                    assert(cell_y * y == y * cell_y) by (nonlinear_arith);
                    assert(pw == cell_len(w, nx as int, x as int));
                    assert(ph == cell_len(h, ny as int, y as int));
                }
                self.partitions.push(r);
                x = x + 1;
            }
            proof {
                assert(y * nx + nx == (y + 1) * nx) by (nonlinear_arith);
            }
            y = y + 1;
        }
        assert(ny * nx == nx * ny) by (nonlinear_arith);
    }

    fn partition_full(&mut self)
        requires
            old(self).buffer.wf(),
        ensures
            final(self).buffer == old(self).buffer,
            final(self).scheme == old(self).scheme,
            final(self).threshold == old(self).threshold,
            final(self).wf(),
            grid_partitions(final(self).partitions@, old(self).buffer.width as int, old(self).buffer.height as int, 1, 1),
    {
        self.partition_grid(1, 1);
    }

    fn partition_split_vertical(&mut self)
        requires
            old(self).buffer.wf(),
        ensures
            final(self).buffer == old(self).buffer,
            final(self).scheme == old(self).scheme,
            final(self).threshold == old(self).threshold,
            final(self).wf(),
            grid_partitions(final(self).partitions@, old(self).buffer.width as int, old(self).buffer.height as int, 2, 1),
    {
        self.partition_grid(2, 1);
    }

    fn partition_split_horizontal(&mut self)
        requires
            old(self).buffer.wf(),
        ensures
            final(self).buffer == old(self).buffer,
            final(self).scheme == old(self).scheme,
            final(self).threshold == old(self).threshold,
            final(self).wf(),
            grid_partitions(final(self).partitions@, old(self).buffer.width as int, old(self).buffer.height as int, 1, 2),
    {
        self.partition_grid(1, 2);
    }

    /// Replaces the partitions by the grid of the current scheme, all blank.
    fn generate_partitions(&mut self)
        requires
            old(self).buffer.wf(),
        ensures
            final(self).buffer == old(self).buffer,
            final(self).scheme == old(self).scheme,
            final(self).threshold == old(self).threshold,
            final(self).wf(),
            final(self).partitioned(),
    {
        match self.scheme {
            PartitionScheme::Full => self.partition_full(),
            PartitionScheme::Split1x2 => self.partition_split_vertical(),
            PartitionScheme::Split2x1 => self.partition_split_horizontal(),
            PartitionScheme::Split2x2 => self.partition_grid(2, 2),
            PartitionScheme::Split3x3 => self.partition_grid(3, 3),
            PartitionScheme::Split3x2 => self.partition_grid(3, 2),
            PartitionScheme::Split3x1 => self.partition_grid(3, 1),
            PartitionScheme::Split4x4 => self.partition_grid(4, 4),
            PartitionScheme::Split5x5 => self.partition_grid(5, 5),
            PartitionScheme::Split8x8 => self.partition_grid(8, 8),
        }
    }

    /// Chooses the partition scheme for `cores` cores, or for the number of CPUs of this
    /// machine when `cores` is 0, and splits the buffer accordingly.
    pub fn set_core_limit(&mut self, cores: usize)
        requires
            old(self).buffer.wf(),
        ensures
            final(self).partitions@.len() >= 1,
            final(self).laid_out(),
            forall|px: int, py: int|
                0 <= px < final(self).buffer.width && 0 <= py < final(self).buffer.height ==> #[trigger] in_some_partition(*final(self), px, py),
            forall|j: int, k: int, px: int, py: int|
                0 <= j < final(self).partitions@.len() && 0 <= k < final(self).partitions@.len() && #[trigger] in_cell(px, py, final(self).partitions@[j])
                    && #[trigger] in_cell(px, py, final(self).partitions@[k]) ==> j == k,
            final(self).gridded(),
            final(self).buffer == old(self).buffer,
            final(self).threshold == old(self).threshold,
            final(self).wf(),
            final(self).partitioned(),
            cores != 0 ==> final(self).scheme == scheme_for_spec(cores as int, old(self).buffer.width as int, old(self).buffer.height as int),
            cores == 0 ==> exists|n: int| n >= 1 && final(self).scheme == scheme_for_spec(n, old(self).buffer.width as int, old(self).buffer.height as int),
    {
        let cpu_count: usize = if cores == 0 {
            cpu_count()
        } else {
            cores
        };
        self.scheme = Self::scheme_for(cpu_count, self.buffer.width, self.buffer.height);
        self.generate_partitions();
        proof {
            lemma_partitioned_gridded(*self);
            law_partitions_tile(*self);
        }
    }

    /// Clears the whole buffer and every partition to transparent black.
    pub fn clear(&mut self)
        requires
            old(self).wf(),
        ensures
            final(self).wf(),
            final(self).scheme == old(self).scheme,
            final(self).threshold == old(self).threshold,
            final(self).buffer.same_setup(old(self).buffer),
            final(self).buffer.color@ == Seq::new(old(self).buffer.color@.len(), |i: int| 0u8),
            final(self).partitions@.len() == old(self).partitions@.len(),
            forall|k: int|
                0 <= k < old(self).partitions@.len() ==> (#[trigger] final(self).partitions@[k]).same_setup(old(self).partitions@[k])
                    && final(self).partitions@[k].color@ == Seq::new(old(self).partitions@[k].color@.len(), |i: int| 0u8),
    {
        self.buffer.clear();
        let n: usize = self.partitions.len();
        let mut i: usize = 0;
        while i < n
            invariant
                self.wf(),
                self.scheme == old(self).scheme,
                self.threshold == old(self).threshold,
                self.buffer.same_setup(old(self).buffer),
                self.buffer.color@ == Seq::new(old(self).buffer.color@.len(), |i: int| 0u8),
                n == old(self).partitions@.len(),
                self.partitions@.len() == n,
                i <= n,
                forall|k: int|
                    0 <= k < i ==> (#[trigger] self.partitions@[k]).same_setup(old(self).partitions@[k])
                        && self.partitions@[k].color@ == Seq::new(old(self).partitions@[k].color@.len(), |i: int| 0u8),
                forall|k: int| i <= k < n ==> #[trigger] self.partitions@[k] == old(self).partitions@[k],
            decreases n - i,
        {
            self.partitions[i].clear();
            i = i + 1;
        }
    }

    /// Clears the whole buffer and every partition to a color.
    pub fn clear_color(&mut self, color: Color)
        requires
            old(self).wf(),
        ensures
            final(self).wf(),
            final(self).scheme == old(self).scheme,
            final(self).threshold == old(self).threshold,
            final(self).buffer.same_setup(old(self).buffer),
            final(self).buffer.color@.len() == old(self).buffer.color@.len(),
            filled_with(final(self).buffer.color@, color),
            final(self).partitions@.len() == old(self).partitions@.len(),
            forall|k: int|
                0 <= k < old(self).partitions@.len() ==> (#[trigger] final(self).partitions@[k]).same_setup(old(self).partitions@[k])
                    && final(self).partitions@[k].color@.len() == old(self).partitions@[k].color@.len() && filled_with(
                    final(self).partitions@[k].color@,
                    color,
                ),
    {
        self.buffer.clear_color(color);
        let n: usize = self.partitions.len();
        let mut i: usize = 0;
        while i < n
            invariant
                self.wf(),
                self.scheme == old(self).scheme,
                self.threshold == old(self).threshold,
                self.buffer.same_setup(old(self).buffer),
                self.buffer.color@.len() == old(self).buffer.color@.len(),
                filled_with(self.buffer.color@, color),
                n == old(self).partitions@.len(),
                self.partitions@.len() == n,
                i <= n,
                forall|k: int|
                    0 <= k < i ==> (#[trigger] self.partitions@[k]).same_setup(old(self).partitions@[k])
                        && self.partitions@[k].color@.len() == old(self).partitions@[k].color@.len() && filled_with(
                        self.partitions@[k].color@,
                        color,
                    ),
                forall|k: int| i <= k < n ==> #[trigger] self.partitions@[k] == old(self).partitions@[k],
            decreases n - i,
        {
            self.partitions[i].clear_color(color);
            i = i + 1;
        }
    }

    /// Turns drawing on or off in the whole buffer and every partition.
    fn set_drawing(&mut self, on: bool)
        requires
            old(self).wf(),
        ensures
            final(self).wf(),
            final(self).scheme == old(self).scheme,
            final(self).threshold == old(self).threshold,
            final(self).buffer == (Buffer { is_drawing: on, ..old(self).buffer }),
            final(self).partitions@.len() == old(self).partitions@.len(),
            forall|k: int|
                0 <= k < old(self).partitions@.len() ==> #[trigger] final(self).partitions@[k] == (Buffer {
                    is_drawing: on,
                    ..old(self).partitions@[k]
                }),
    {
        self.buffer.is_drawing = on;
        let n: usize = self.partitions.len();
        let mut i: usize = 0;
        while i < n
            invariant
                self.wf(),
                self.scheme == old(self).scheme,
                self.threshold == old(self).threshold,
                self.buffer == (Buffer { is_drawing: on, ..old(self).buffer }),
                n == old(self).partitions@.len(),
                self.partitions@.len() == n,
                i <= n,
                forall|k: int| 0 <= k < i ==> #[trigger] self.partitions@[k] == (Buffer { is_drawing: on, ..old(self).partitions@[k] }),
                forall|k: int| i <= k < n ==> #[trigger] self.partitions@[k] == old(self).partitions@[k],
            decreases n - i,
        {
            self.partitions[i].is_drawing = on;
            i = i + 1;
        }
    }

    /// Turns drawing on in the whole buffer and every partition.
    pub fn enable_drawing(&mut self)
        requires
            old(self).wf(),
        ensures
            final(self).wf(),
            final(self).scheme == old(self).scheme,
            final(self).threshold == old(self).threshold,
            final(self).buffer == (Buffer { is_drawing: true, ..old(self).buffer }),
            final(self).partitions@.len() == old(self).partitions@.len(),
            forall|k: int|
                0 <= k < old(self).partitions@.len() ==> #[trigger] final(self).partitions@[k] == (Buffer {
                    is_drawing: true,
                    ..old(self).partitions@[k]
                }),
    {
        self.set_drawing(true);
    }

    /// Turns drawing off in the whole buffer and every partition.
    pub fn disable_drawing(&mut self)
        requires
            old(self).wf(),
        ensures
            final(self).wf(),
            final(self).scheme == old(self).scheme,
            final(self).threshold == old(self).threshold,
            final(self).buffer == (Buffer { is_drawing: false, ..old(self).buffer }),
            final(self).partitions@.len() == old(self).partitions@.len(),
            forall|k: int|
                0 <= k < old(self).partitions@.len() ==> #[trigger] final(self).partitions@[k] == (Buffer {
                    is_drawing: false,
                    ..old(self).partitions@[k]
                }),
    {
        self.set_drawing(false);
    }

    /// Adds a shader to the whole buffer and to every partition.
    pub fn add_shader(&mut self, shader: BufferShader)
        requires
            old(self).wf(),
        ensures
            final(self).wf(),
            final(self).scheme == old(self).scheme,
            final(self).threshold == old(self).threshold,
            same_but_shaders(final(self).buffer, old(self).buffer),
            final(self).buffer.shader_stack@ == sort_by_order(old(self).buffer.shader_stack@.push(shader)),
            final(self).partitions@.len() == old(self).partitions@.len(),
            forall|k: int|
                0 <= k < old(self).partitions@.len() ==> same_but_shaders(#[trigger] final(self).partitions@[k], old(self).partitions@[k])
                    && final(self).partitions@[k].shader_stack@ == sort_by_order(old(self).partitions@[k].shader_stack@.push(shader)),
    {
        self.buffer.add_shader(shader);
        let n: usize = self.partitions.len();
        let mut i: usize = 0;
        while i < n
            invariant
                self.wf(),
                self.scheme == old(self).scheme,
                self.threshold == old(self).threshold,
                same_but_shaders(self.buffer, old(self).buffer),
                self.buffer.shader_stack@ == sort_by_order(old(self).buffer.shader_stack@.push(shader)),
                n == old(self).partitions@.len(),
                self.partitions@.len() == n,
                i <= n,
                forall|k: int|
                    0 <= k < i ==> same_but_shaders(#[trigger] self.partitions@[k], old(self).partitions@[k])
                        && self.partitions@[k].shader_stack@ == sort_by_order(old(self).partitions@[k].shader_stack@.push(shader)),
                forall|k: int| i <= k < n ==> #[trigger] self.partitions@[k] == old(self).partitions@[k],
            decreases n - i,
        {
            self.partitions[i].add_shader(shader);
            i = i + 1;
        }
    }

    /// Clears the whole buffer, changes its size and splits it again with the current scheme.
    pub fn resize(&mut self, width: usize, height: usize)
        requires
            old(self).buffer.wf(),
            width <= i32::MAX,
            height <= i32::MAX,
            width * height * 4 <= usize::MAX,
        ensures
            final(self).gridded(),
            final(self).wf(),
            final(self).partitioned(),
            final(self).scheme == old(self).scheme,
            final(self).threshold == old(self).threshold,
            final(self).buffer.width == width,
            final(self).buffer.height == height,
            final(self).buffer.color@ == Seq::new((width * height * 4) as nat, |i: int| 0u8),
            final(self).buffer.shader_stack@ == old(self).buffer.shader_stack@,
            final(self).buffer.is_drawing == old(self).buffer.is_drawing,
            final(self).buffer.offset_x == old(self).buffer.offset_x,
            final(self).buffer.offset_y == old(self).buffer.offset_y,
    {
        self.buffer.resize(width, height);
        self.generate_partitions();
        proof {
            lemma_partitioned_gridded(*self);
        }
    }

    /// Copies `image` into the whole buffer, as `Buffer::blit` does.
    pub fn blit(&mut self, image: &Buffer, x: i32, y: i32)
        requires
            old(self).buffer.wf(),
            image.wf(),
            !(old(self).buffer.width == image.width && old(self).buffer.height == image.height) && crate::compose::blit_fits(
                old(self).buffer,
                *image,
                x as int,
                y as int,
            ) ==> image.width > 0,
        ensures
            final(self).buffer.wf(),
            final(self).buffer.same_setup(old(self).buffer),
            final(self).partitions == old(self).partitions,
            final(self).scheme == old(self).scheme,
            final(self).threshold == old(self).threshold,
            !crate::compose::blit_fits(old(self).buffer, *image, x as int, y as int) ==> final(self).buffer.color@ == old(self).buffer.color@,
            crate::compose::blit_fits(old(self).buffer, *image, x as int, y as int) ==> forall|px: int, py: int|
                0 <= px < old(self).buffer.width && 0 <= py < old(self).buffer.height ==> #[trigger] crate::buffer::pixel_at(
                    final(self).buffer.color@,
                    old(self).buffer.width as int,
                    px,
                    py,
                ) == crate::compose::blit_pixel(old(self).buffer, *image, x as int, y as int, px, py),
    {
        self.buffer.blit(image, x, y);
    }

    /// Draws a pixel into the whole buffer with `Buffer::pset`.
    pub fn pset(&mut self, x: i32, y: i32, color: Color)
        requires
            old(self).buffer.wf(),
            old(self).buffer.canvas().pset_req(x as int, y as int),
        ensures
            final(self).buffer.wf(),
            final(self).buffer.same_setup(old(self).buffer),
            final(self).buffer.color@ == old(self).buffer.canvas().pset_spec(old(self).buffer.color@, x as int, y as int, color),
            final(self).partitions == old(self).partitions,
            final(self).scheme == old(self).scheme,
            final(self).threshold == old(self).threshold,
    {
        self.buffer.pset(x, y, color);
    }

    /// Reads a pixel of the whole buffer with `Buffer::pget`.
    pub fn pget(&mut self, x: i32, y: i32) -> (c: Color)
        requires
            old(self).buffer.wf(),
            old(self).buffer.canvas().pget_req(x as int, y as int),
        ensures
            *final(self) == *old(self),
            c == old(self).buffer.canvas().pget_spec(old(self).buffer.color@, x as int, y as int),
    {
        self.buffer.pget(x, y)
    }

    /// Reads a pixel of the whole buffer with `Buffer::pget_wrap`.
    pub fn pget_wrap(&mut self, x: i32, y: i32) -> (c: Color)
        requires
            old(self).buffer.wf(),
            old(self).buffer.width > 0,
            old(self).buffer.height > 0,
            old(self).buffer.canvas().index_fits(x as int % old(self).buffer.width as int, y as int % old(self).buffer.height as int),
        ensures
            *final(self) == *old(self),
            c == crate::buffer::read_pixel(
                old(self).buffer.color@,
                old(self).buffer.canvas().index_of(x as int % old(self).buffer.width as int, y as int % old(self).buffer.height as int),
            ),
    {
        self.buffer.pget_wrap(x, y)
    }

    /// Draws a line into the whole buffer with `Buffer::pline`; too simple to parallelize.
    pub fn pline(&mut self, x0: i32, y0: i32, x1: i32, y1: i32, color: Color)
        requires
            old(self).buffer.wf(),
            line_fits(x0 as int, y0 as int, x1 as int, y1 as int),
            old(self).buffer.canvas().plot_seq_req(old(self).buffer.color@, line_dabs(x0 as int, y0 as int, x1 as int, y1 as int, color), true),
        ensures
            final(self).buffer.wf(),
            final(self).buffer.same_setup(old(self).buffer),
            final(self).buffer.color@ == old(self).buffer.canvas().plot_seq(old(self).buffer.color@, line_dabs(x0 as int, y0 as int, x1 as int, y1 as int, color), true),
            final(self).partitions == old(self).partitions,
            final(self).scheme == old(self).scheme,
            final(self).threshold == old(self).threshold,
    {
        self.buffer.pline(x0, y0, x1, y1, color);
    }

    /// The partitions are well formed and lie inside the whole buffer.
    pub open spec fn laid_out(self) -> bool {
        &&& self.wf()
        &&& forall|k: int|
            0 <= k < self.partitions@.len() ==> (#[trigger] self.partitions@[k]).offset_x + self.partitions@[k].width
                <= self.buffer.width && self.partitions@[k].offset_y + self.partitions@[k].height <= self.buffer.height
    }

    /// Every partition can be copied back: one that differs in size from the whole buffer
    /// is at least one pixel wide.
    pub open spec fn copy_back_ok(self) -> bool {
        forall|k: int|
            0 <= k < self.partitions@.len() ==> !((#[trigger] self.partitions@[k]).width == self.buffer.width
                && self.partitions@[k].height == self.buffer.height) ==> self.partitions@[k].width > 0
    }

    /// The partitions have the same place and setup in both.
    pub open spec fn same_parts_setup(self, other: PartitionedBuffer) -> bool {
        &&& self.partitions@.len() == other.partitions@.len()
        &&& forall|k: int| 0 <= k < self.partitions@.len() ==> (#[trigger] self.partitions@[k]).same_setup(other.partitions@[k])
    }

    /// Whether a textured triangle is drawn part by part: the bounding box of its corners,
    /// clamped to the whole buffer, covers at least `threshold` pixels, with a threshold
    /// that is not 0.
    pub fn parallel_triangle(&self, x0: i32, y0: i32, x1: i32, y1: i32, x2: i32, y2: i32) -> (b: bool)
        requires
            self.buffer.wf(),
        ensures
            b == (self.threshold != 0 && triangle_box_area(
                self.buffer.width as int,
                self.buffer.height as int,
                x0 as int,
                y0 as int,
                x1 as int,
                y1 as int,
                x2 as int,
                y2 as int,
            ) >= self.threshold),
    {
        let w: i32 = self.buffer.width as i32;
        let h: i32 = self.buffer.height as i32;
        let min_x: i32 = if x0 <= x1 && x0 <= x2 { x0 } else if x1 <= x2 { x1 } else { x2 };
        let max_x: i32 = if x0 >= x1 && x0 >= x2 { x0 } else if x1 >= x2 { x1 } else { x2 };
        let min_y: i32 = if y0 <= y1 && y0 <= y2 { y0 } else if y1 <= y2 { y1 } else { y2 };
        let max_y: i32 = if y0 >= y1 && y0 >= y2 { y0 } else if y1 >= y2 { y1 } else { y2 };
        let xmin: i32 = clamp_i32(min_x, 0, w);
        let xmax: i32 = clamp_i32(max_x, 0, w);
        let ymin: i32 = clamp_i32(min_y, 0, h);
        let ymax: i32 = clamp_i32(max_y, 0, h);
        let bw: u64 = (xmax - xmin) as u64;
        let bh: u64 = (ymax - ymin) as u64;
        proof {
            assert(bw * bh <= 0x7fff_ffff * 0x7fff_ffff) by (nonlinear_arith)
                requires
                    0 <= bw <= 0x7fff_ffff,
                    0 <= bh <= 0x7fff_ffff,
            ;
        }
        let area: u64 = bw * bh;
        self.threshold != 0 && area >= self.threshold as u64
    }

    /// Copies every partition, in order, back into the whole buffer at its offset.
    pub fn copy_back(&mut self)
        requires
            old(self).laid_out(),
            old(self).copy_back_ok(),
        ensures
            final(self).laid_out(),
            final(self).copy_back_ok(),
            final(self).partitions == old(self).partitions,
            final(self).scheme == old(self).scheme,
            final(self).threshold == old(self).threshold,
            final(self).buffer.same_setup(old(self).buffer),
            final(self).buffer.color@ == blit_back(
                old(self).buffer.color@,
                old(self).buffer.width as int,
                old(self).buffer.height as int,
                old(self).partitions@,
            ),
    {
        let n: usize = self.partitions.len();
        let mut i: usize = 0;
        while i < n
            invariant
                self.laid_out(),
                self.copy_back_ok(),
                self.partitions == old(self).partitions,
                self.scheme == old(self).scheme,
                self.threshold == old(self).threshold,
                self.buffer.same_setup(old(self).buffer),
                n == self.partitions@.len(),
                i <= n,
                self.buffer.color@ == blit_back(
                    old(self).buffer.color@,
                    old(self).buffer.width as int,
                    old(self).buffer.height as int,
                    old(self).partitions@.take(i as int),
                ),
            decreases n - i,
        {
            proof {
                assert(old(self).partitions@.take(i + 1).drop_last() =~= old(self).partitions@.take(i as int));
                assert(self.partitions@[i as int].wf());
            }
            let ox: i32 = self.partitions[i].offset_x as i32;
            let oy: i32 = self.partitions[i].offset_y as i32;
            self.buffer.blit(&self.partitions[i], ox, oy);
            i = i + 1;
        }
        assert(old(self).partitions@.take(n as int) =~= old(self).partitions@);
    }

    /// Copies into partition `i` the pixels of the whole buffer that it covers, so that
    /// drawing into it starts from what the whole buffer holds there.
    pub fn refresh_partition(&mut self, i: usize)
        requires
            old(self).laid_out(),
            i < old(self).partitions@.len(),
        ensures
            final(self).laid_out(),
            final(self).buffer == old(self).buffer,
            final(self).scheme == old(self).scheme,
            final(self).threshold == old(self).threshold,
            final(self).partitions@.len() == old(self).partitions@.len(),
            forall|k: int| 0 <= k < old(self).partitions@.len() && k != i ==> #[trigger] final(self).partitions@[k] == old(self).partitions@[k],
            final(self).partitions@[i as int].same_setup(old(self).partitions@[i as int]),
            final(self).partitions@[i as int].color@ == cell_pixels(
                old(self).buffer.color@,
                old(self).buffer.width as int,
                old(self).partitions@[i as int],
            ),
    {
        assert(self.partitions@[i as int].wf());
        let pw: usize = self.partitions[i].width;
        let ph: usize = self.partitions[i].height;
        let ox: usize = self.partitions[i].offset_x;
        let oy: usize = self.partitions[i].offset_y;
        let v: Vec<u8> = crop_cell(&self.buffer.color, self.buffer.width, self.buffer.height, ox, oy, pw, ph);
        self.partitions[i].color = v;
    }

    /// Draws a rectangle. A filled rectangle of at least `threshold` pixels (when the
    /// threshold is not 0) is drawn into every partition, each first refreshed from the
    /// whole buffer and drawn into at the rectangle's position relative to it, and the
    /// partitions are then copied back into the whole buffer in order; otherwise the rectangle is drawn into the whole buffer.
    pub fn prectangle(&mut self, filled: bool, x: i32, y: i32, width: i32, height: i32, color: Color)
        requires
            old(self).laid_out(),
            fits_i32(width * height),
            parallel_rect(*old(self), filled, width as int, height as int) ==> old(self).copy_back_ok(),
            parallel_rect(*old(self), filled, width as int, height as int) ==> forall|k: int|
                0 <= k < old(self).partitions@.len() ==> fits_i32(x - (#[trigger] old(self).partitions@[k]).offset_x) && fits_i32(
                    y - old(self).partitions@[k].offset_y,
                ) && rect_req_on(old(self).partitions@[k].canvas(), cell_pixels(old(self).buffer.color@, old(self).buffer.width as int, old(self).partitions@[k]),
                    filled,
                    x - old(self).partitions@[k].offset_x,
                    y - old(self).partitions@[k].offset_y,
                    width as int,
                    height as int,
                    color,
                ),
            !parallel_rect(*old(self), filled, width as int, height as int) ==> rect_req(
                old(self).buffer,
                filled,
                x as int,
                y as int,
                width as int,
                height as int,
                color,
            ),
        ensures
            old(self).threshold == 0 ==> final(self).partitions == old(self).partitions && final(self).buffer.color@ == rect_result(
                old(self).buffer,
                filled,
                x as int,
                y as int,
                width as int,
                height as int,
                color,
            ),
            old(self).gridded() ==> final(self).gridded(),
            final(self).laid_out(),
            final(self).same_parts_setup(*old(self)),
            final(self).buffer.same_setup(old(self).buffer),
            final(self).scheme == old(self).scheme,
            final(self).threshold == old(self).threshold,
            parallel_rect(*old(self), filled, width as int, height as int) ==> forall|k: int|
                0 <= k < old(self).partitions@.len() ==> (#[trigger] final(self).partitions@[k]).color@ == rect_result_on(old(self).partitions@[k].canvas(), cell_pixels(old(self).buffer.color@, old(self).buffer.width as int, old(self).partitions@[k]),
                    filled,
                    x - old(self).partitions@[k].offset_x,
                    y - old(self).partitions@[k].offset_y,
                    width as int,
                    height as int,
                    color,
                ),
            parallel_rect(*old(self), filled, width as int, height as int) ==> final(self).buffer.color@ == blit_back(
                old(self).buffer.color@,
                old(self).buffer.width as int,
                old(self).buffer.height as int,
                final(self).partitions@,
            ),
            !parallel_rect(*old(self), filled, width as int, height as int) ==> final(self).partitions == old(self).partitions,
            !parallel_rect(*old(self), filled, width as int, height as int) ==> final(self).buffer.color@ == rect_result(
                old(self).buffer,
                filled,
                x as int,
                y as int,
                width as int,
                height as int,
                color,
            ),
            old(self).gridded() && plain_parts(*old(self)) ==> final(self).buffer.color@ == rect_result(
                old(self).buffer,
                filled,
                x as int,
                y as int,
                width as int,
                height as int,
                color,
            ),
    {
        let total_area: i32 = width * height;
        if filled && self.threshold != 0 && total_area >= self.threshold as i32 {
            let n: usize = self.partitions.len();
            let mut i: usize = 0;
            while i < n
                invariant
                    self.laid_out(),
                    self.copy_back_ok(),
                    self.same_parts_setup(*old(self)),
                    self.buffer == old(self).buffer,
                    self.scheme == old(self).scheme,
                    self.threshold == old(self).threshold,
                    n == self.partitions@.len(),
                    i <= n,
                    forall|k: int|
                        0 <= k < n ==> fits_i32(x - (#[trigger] old(self).partitions@[k]).offset_x) && fits_i32(
                            y - old(self).partitions@[k].offset_y,
                        ) && rect_req_on(old(self).partitions@[k].canvas(), cell_pixels(old(self).buffer.color@, old(self).buffer.width as int, old(self).partitions@[k]),
                            filled,
                            x - old(self).partitions@[k].offset_x,
                            y - old(self).partitions@[k].offset_y,
                            width as int,
                            height as int,
                            color,
                        ),
                    forall|k: int|
                        0 <= k < i ==> (#[trigger] self.partitions@[k]).color@ == rect_result_on(old(self).partitions@[k].canvas(), cell_pixels(old(self).buffer.color@, old(self).buffer.width as int, old(self).partitions@[k]),
                            filled,
                            x - old(self).partitions@[k].offset_x,
                            y - old(self).partitions@[k].offset_y,
                            width as int,
                            height as int,
                            color,
                        ),
                    forall|k: int| i <= k < n ==> #[trigger] self.partitions@[k] == old(self).partitions@[k],
                decreases n - i,
            {
                self.refresh_partition(i);
                let rx: i32 = x - self.partitions[i].offset_x as i32;
                let ry: i32 = y - self.partitions[i].offset_y as i32;
                self.partitions[i].prectangle(filled, rx, ry, width, height, color);
                i = i + 1;
            }
            self.copy_back();
            proof {
                if old(self).gridded() && plain_parts(*old(self)) {
                    law_partitioned_rectangle(*old(self), self.partitions@, x as int, y as int, width as int, height as int, color);
                }
            }
        } else {
            self.buffer.prectangle(filled, x, y, width, height, color);
        }
    }

    /// Draws a circle part by part: into every partition, each first refreshed from the
    /// whole buffer and drawn into at the circle's position relative to it, then copies the
    /// partitions back into the whole buffer in order. This is what `pcircle` on a partitioned buffer does once the circle's area
    /// reaches the threshold.
    pub fn pcircle_parts(&mut self, filled: bool, xc: i32, yc: i32, radius: i32, color: Color)
        requires
            old(self).laid_out(),
            old(self).copy_back_ok(),
            forall|k: int|
                0 <= k < old(self).partitions@.len() ==> fits_i32(xc - (#[trigger] old(self).partitions@[k]).offset_x) && fits_i32(
                    yc - old(self).partitions@[k].offset_y,
                ) && circle_req_on(old(self).partitions@[k].canvas(), cell_pixels(old(self).buffer.color@, old(self).buffer.width as int, old(self).partitions@[k]), filled, xc - old(self).partitions@[k].offset_x, yc - old(self).partitions@[k].offset_y, radius as int, color),
        ensures
            old(self).gridded() ==> final(self).gridded(),
            final(self).laid_out(),
            final(self).same_parts_setup(*old(self)),
            final(self).buffer.same_setup(old(self).buffer),
            final(self).scheme == old(self).scheme,
            final(self).threshold == old(self).threshold,
            forall|k: int|
                0 <= k < old(self).partitions@.len() ==> (#[trigger] final(self).partitions@[k]).color@ == circle_result_on(old(self).partitions@[k].canvas(), cell_pixels(old(self).buffer.color@, old(self).buffer.width as int, old(self).partitions@[k]), filled, xc - old(self).partitions@[k].offset_x, yc - old(self).partitions@[k].offset_y, radius as int, color),
            final(self).buffer.color@ == blit_back(
                old(self).buffer.color@,
                old(self).buffer.width as int,
                old(self).buffer.height as int,
                final(self).partitions@,
            ),
            filled && old(self).gridded() && plain_parts(*old(self)) && drawing_parts(*old(self)) ==> final(self).buffer.color@
                == crate::draw::circle_result(old(self).buffer, true, xc as int, yc as int, radius as int, color),
            !filled && old(self).gridded() && drawing_parts(*old(self)) ==> final(self).buffer.color@ == crate::draw::circle_result(
                old(self).buffer,
                false,
                xc as int,
                yc as int,
                radius as int,
                color,
            ),
    {
        let n: usize = self.partitions.len();
        let mut i: usize = 0;
        while i < n
            invariant
                self.laid_out(),
                self.copy_back_ok(),
                self.same_parts_setup(*old(self)),
                self.buffer == old(self).buffer,
                self.scheme == old(self).scheme,
                self.threshold == old(self).threshold,
                n == self.partitions@.len(),
                i <= n,
                forall|k: int|
                    0 <= k < n ==> fits_i32(xc - (#[trigger] old(self).partitions@[k]).offset_x) && fits_i32(
                        yc - old(self).partitions@[k].offset_y,
                    ) && circle_req_on(old(self).partitions@[k].canvas(), cell_pixels(old(self).buffer.color@, old(self).buffer.width as int, old(self).partitions@[k]), filled, xc - old(self).partitions@[k].offset_x, yc - old(self).partitions@[k].offset_y, radius as int, color),
                forall|k: int|
                    0 <= k < i ==> (#[trigger] self.partitions@[k]).color@ == circle_result_on(old(self).partitions@[k].canvas(), cell_pixels(old(self).buffer.color@, old(self).buffer.width as int, old(self).partitions@[k]), filled, xc - old(self).partitions@[k].offset_x, yc - old(self).partitions@[k].offset_y, radius as int, color),
                forall|k: int| i <= k < n ==> #[trigger] self.partitions@[k] == old(self).partitions@[k],
            decreases n - i,
        {
            self.refresh_partition(i);
            let rx: i32 = xc - self.partitions[i].offset_x as i32;
            let ry: i32 = yc - self.partitions[i].offset_y as i32;
            self.partitions[i].pcircle(filled, rx, ry, radius, color);
            i = i + 1;
        }
        self.copy_back();
        proof {
            if filled && old(self).gridded() && plain_parts(*old(self)) && drawing_parts(*old(self)) {
                law_partitioned_disc(*old(self), self.partitions@, xc as int, yc as int, radius as int, color);
            }
            if !filled && old(self).gridded() && drawing_parts(*old(self)) {
                law_partitioned_circle_outline(*old(self), self.partitions@, xc as int, yc as int, radius as int, color);
            }
        }
    }

    /// Draws an image. An image of at least `threshold` pixels (when the threshold is not 0)
    /// is drawn into every partition, each first refreshed from the whole buffer and drawn
    /// into at the image's position relative to it, and the partitions are then copied
    /// back into the whole buffer in order;
    /// otherwise the image is drawn into the whole buffer.
    pub fn pimg(&mut self, image: &Buffer, x: i32, y: i32)
        requires
            old(self).laid_out(),
            image.wf(),
            fits_i32(image.width * image.height),
            parallel_image(*old(self), *image) ==> old(self).copy_back_ok(),
            parallel_image(*old(self), *image) ==> forall|k: int|
                0 <= k < old(self).partitions@.len() ==> fits_i32(x - (#[trigger] old(self).partitions@[k]).offset_x) && fits_i32(
                    y - old(self).partitions@[k].offset_y,
                ) && img_req_on(old(self).partitions@[k].canvas(), cell_pixels(old(self).buffer.color@, old(self).buffer.width as int, old(self).partitions@[k]), *image, x - old(self).partitions@[k].offset_x, y - old(self).partitions@[k].offset_y),
            !parallel_image(*old(self), *image) ==> img_req(old(self).buffer, *image, x as int, y as int),
        ensures
            old(self).threshold == 0 ==> final(self).partitions == old(self).partitions && final(self).buffer.color@ == img_result(
                old(self).buffer,
                *image,
                x as int,
                y as int,
            ),
            old(self).gridded() ==> final(self).gridded(),
            final(self).laid_out(),
            final(self).same_parts_setup(*old(self)),
            final(self).buffer.same_setup(old(self).buffer),
            final(self).scheme == old(self).scheme,
            final(self).threshold == old(self).threshold,
            parallel_image(*old(self), *image) ==> forall|k: int|
                0 <= k < old(self).partitions@.len() ==> (#[trigger] final(self).partitions@[k]).color@ == img_result_on(old(self).partitions@[k].canvas(), cell_pixels(old(self).buffer.color@, old(self).buffer.width as int, old(self).partitions@[k]), *image, x - old(self).partitions@[k].offset_x, y - old(self).partitions@[k].offset_y),
            parallel_image(*old(self), *image) ==> final(self).buffer.color@ == blit_back(
                old(self).buffer.color@,
                old(self).buffer.width as int,
                old(self).buffer.height as int,
                final(self).partitions@,
            ),
            !parallel_image(*old(self), *image) ==> final(self).partitions == old(self).partitions,
            !parallel_image(*old(self), *image) ==> final(self).buffer.color@ == img_result(old(self).buffer, *image, x as int, y as int),
            old(self).gridded() && plain_parts(*old(self)) && drawing_parts(*old(self)) && image_fits(*image, x as int, y as int)
                ==> final(self).buffer.color@ == img_result(old(self).buffer, *image, x as int, y as int),
    {
        let width: usize = image.width;
        let height: usize = image.height;
        let total_area: i32 = (width as i32) * (height as i32);
        if self.threshold != 0 && total_area >= self.threshold as i32 {
            let n: usize = self.partitions.len();
            let mut i: usize = 0;
            while i < n
                invariant
                    self.laid_out(),
                    self.copy_back_ok(),
                    self.same_parts_setup(*old(self)),
                    self.buffer == old(self).buffer,
                    self.scheme == old(self).scheme,
                    self.threshold == old(self).threshold,
                    n == self.partitions@.len(),
                    i <= n,
                    forall|k: int|
                        0 <= k < n ==> fits_i32(x - (#[trigger] old(self).partitions@[k]).offset_x) && fits_i32(
                            y - old(self).partitions@[k].offset_y,
                        ) && img_req_on(old(self).partitions@[k].canvas(), cell_pixels(old(self).buffer.color@, old(self).buffer.width as int, old(self).partitions@[k]), *image, x - old(self).partitions@[k].offset_x, y - old(self).partitions@[k].offset_y),
                    forall|k: int|
                        0 <= k < i ==> (#[trigger] self.partitions@[k]).color@ == img_result_on(old(self).partitions@[k].canvas(), cell_pixels(old(self).buffer.color@, old(self).buffer.width as int, old(self).partitions@[k]), *image, x - old(self).partitions@[k].offset_x, y - old(self).partitions@[k].offset_y),
                    forall|k: int| i <= k < n ==> #[trigger] self.partitions@[k] == old(self).partitions@[k],
                decreases n - i,
            {
                self.refresh_partition(i);
                let rx: i32 = x - self.partitions[i].offset_x as i32;
                let ry: i32 = y - self.partitions[i].offset_y as i32;
                self.partitions[i].pimg(image, rx, ry);
                i = i + 1;
            }
            self.copy_back();
            proof {
                if old(self).gridded() && plain_parts(*old(self)) && drawing_parts(*old(self)) && image_fits(*image, x as int, y as int) {
                    law_partitioned_image(*old(self), self.partitions@, *image, x as int, y as int);
                }
            }
        } else {
            self.buffer.pimg(image, x, y);
        }
    }

    /// Draws a section of an image. For an image of at least `threshold` pixels (when the
    /// threshold is not 0) the section is drawn into every partition, each first refreshed
    /// from the whole buffer and drawn into at its position relative to it, and the
    /// partitions are then copied back into the whole buffer in order; otherwise the section is drawn into the whole buffer.
    pub fn pimgrect(&mut self, image: &Buffer, x: i32, y: i32, ix: i32, iy: i32, iw: i32, ih: i32)
        requires
            old(self).laid_out(),
            image.wf(),
            fits_i32(image.width * image.height),
            parallel_image(*old(self), *image) ==> old(self).copy_back_ok(),
            parallel_image(*old(self), *image) ==> forall|k: int|
                0 <= k < old(self).partitions@.len() ==> fits_i32(x - (#[trigger] old(self).partitions@[k]).offset_x) && fits_i32(
                    y - old(self).partitions@[k].offset_y,
                ) && imgrect_req_on(old(self).partitions@[k].canvas(), cell_pixels(old(self).buffer.color@, old(self).buffer.width as int, old(self).partitions@[k]), *image, x - old(self).partitions@[k].offset_x, y - old(self).partitions@[k].offset_y, ix as int, iy as int, iw as int, ih as int),
            !parallel_image(*old(self), *image) ==> imgrect_req(old(self).buffer, *image, x as int, y as int, ix as int, iy as int, iw as int, ih as int),
        ensures
            old(self).threshold == 0 ==> final(self).partitions == old(self).partitions && final(self).buffer.color@ == imgrect_result(
                old(self).buffer,
                *image,
                x as int,
                y as int,
                ix as int,
                iy as int,
                iw as int,
                ih as int,
            ),
            old(self).gridded() ==> final(self).gridded(),
            final(self).laid_out(),
            final(self).same_parts_setup(*old(self)),
            final(self).buffer.same_setup(old(self).buffer),
            final(self).scheme == old(self).scheme,
            final(self).threshold == old(self).threshold,
            parallel_image(*old(self), *image) ==> forall|k: int|
                0 <= k < old(self).partitions@.len() ==> (#[trigger] final(self).partitions@[k]).color@ == imgrect_result_on(old(self).partitions@[k].canvas(), cell_pixels(old(self).buffer.color@, old(self).buffer.width as int, old(self).partitions@[k]), *image, x - old(self).partitions@[k].offset_x, y - old(self).partitions@[k].offset_y, ix as int, iy as int, iw as int, ih as int),
            parallel_image(*old(self), *image) ==> final(self).buffer.color@ == blit_back(
                old(self).buffer.color@,
                old(self).buffer.width as int,
                old(self).buffer.height as int,
                final(self).partitions@,
            ),
            !parallel_image(*old(self), *image) ==> final(self).partitions == old(self).partitions,
            !parallel_image(*old(self), *image) ==> final(self).buffer.color@ == imgrect_result(old(self).buffer, *image, x as int, y as int, ix as int, iy as int, iw as int, ih as int),
    {
        let width: usize = image.width;
        let height: usize = image.height;
        let total_area: i32 = (width as i32) * (height as i32);
        if self.threshold != 0 && total_area >= self.threshold as i32 {
            let n: usize = self.partitions.len();
            let mut i: usize = 0;
            while i < n
                invariant
                    self.laid_out(),
                    self.copy_back_ok(),
                    self.same_parts_setup(*old(self)),
                    self.buffer == old(self).buffer,
                    self.scheme == old(self).scheme,
                    self.threshold == old(self).threshold,
                    n == self.partitions@.len(),
                    i <= n,
                    forall|k: int|
                        0 <= k < n ==> fits_i32(x - (#[trigger] old(self).partitions@[k]).offset_x) && fits_i32(
                            y - old(self).partitions@[k].offset_y,
                        ) && imgrect_req_on(old(self).partitions@[k].canvas(), cell_pixels(old(self).buffer.color@, old(self).buffer.width as int, old(self).partitions@[k]), *image, x - old(self).partitions@[k].offset_x, y - old(self).partitions@[k].offset_y, ix as int, iy as int, iw as int, ih as int),
                    forall|k: int|
                        0 <= k < i ==> (#[trigger] self.partitions@[k]).color@ == imgrect_result_on(old(self).partitions@[k].canvas(), cell_pixels(old(self).buffer.color@, old(self).buffer.width as int, old(self).partitions@[k]), *image, x - old(self).partitions@[k].offset_x, y - old(self).partitions@[k].offset_y, ix as int, iy as int, iw as int, ih as int),
                    forall|k: int| i <= k < n ==> #[trigger] self.partitions@[k] == old(self).partitions@[k],
                decreases n - i,
            {
                self.refresh_partition(i);
                let rx: i32 = x - self.partitions[i].offset_x as i32;
                let ry: i32 = y - self.partitions[i].offset_y as i32;
                self.partitions[i].pimgrect(image, rx, ry, ix, iy, iw, ih);
                i = i + 1;
            }
            self.copy_back();
        } else {
            self.buffer.pimgrect(image, x, y, ix, iy, iw, ih);
        }
    }

    /// Outlines the top and left edges of every partition in magenta, in the whole buffer.
    pub fn draw_debug_view(&mut self)
        requires
            old(self).laid_out(),
            forall|k: int|
                0 <= k < old(self).partitions@.len() ==> line_fits(
                    (#[trigger] old(self).partitions@[k]).offset_x as int,
                    old(self).partitions@[k].offset_y as int,
                    old(self).partitions@[k].offset_x + old(self).partitions@[k].width,
                    old(self).partitions@[k].offset_y as int,
                ) && line_fits(
                    old(self).partitions@[k].offset_x as int,
                    old(self).partitions@[k].offset_y as int,
                    old(self).partitions@[k].offset_x as int,
                    old(self).partitions@[k].offset_y + old(self).partitions@[k].height,
                ),
            old(self).buffer.canvas().plot_seq_req(old(self).buffer.color@, debug_dabs(old(self).partitions@), true),
        ensures
            final(self).laid_out(),
            final(self).partitions == old(self).partitions,
            final(self).scheme == old(self).scheme,
            final(self).threshold == old(self).threshold,
            final(self).buffer.same_setup(old(self).buffer),
            final(self).buffer.color@ == old(self).buffer.canvas().plot_seq(old(self).buffer.color@, debug_dabs(old(self).partitions@), true),
    {
        let ghost cv: Canvas = old(self).buffer.canvas();
        let ghost pix0: Seq<u8> = old(self).buffer.color@;
        let ghost all: Seq<Dab> = debug_dabs(old(self).partitions@);
        proof {
            assert(old(self).partitions@.take(0) =~= Seq::<Buffer>::empty());
            assert(debug_dabs(old(self).partitions@.take(0)) == Seq::<Dab>::empty());
            assert(Seq::<Dab>::empty() + all.subrange(0, all.len() as int) =~= all);
        }
        let n: usize = self.partitions.len();
        let mut i: usize = 0;
        while i < n
            invariant
                self.laid_out(),
                self.partitions == old(self).partitions,
                self.scheme == old(self).scheme,
                self.threshold == old(self).threshold,
                self.buffer.same_setup(old(self).buffer),
                cv == self.buffer.canvas(),
                n == self.partitions@.len(),
                i <= n,
                all == debug_dabs(old(self).partitions@),
                forall|k: int|
                    0 <= k < n ==> line_fits(
                        (#[trigger] old(self).partitions@[k]).offset_x as int,
                        old(self).partitions@[k].offset_y as int,
                        old(self).partitions@[k].offset_x + old(self).partitions@[k].width,
                        old(self).partitions@[k].offset_y as int,
                    ) && line_fits(
                        old(self).partitions@[k].offset_x as int,
                        old(self).partitions@[k].offset_y as int,
                        old(self).partitions@[k].offset_x as int,
                        old(self).partitions@[k].offset_y + old(self).partitions@[k].height,
                    ),
                cv.plot_seq_req(pix0, debug_dabs(old(self).partitions@.take(i as int)) + (all.subrange(
                    debug_dabs(old(self).partitions@.take(i as int)).len() as int,
                    all.len() as int,
                )), true),
                all == debug_dabs(old(self).partitions@.take(i as int)) + all.subrange(
                    debug_dabs(old(self).partitions@.take(i as int)).len() as int,
                    all.len() as int,
                ),
                self.buffer.color@ == cv.plot_seq(pix0, debug_dabs(old(self).partitions@.take(i as int)), true),
            decreases n - i,
        {
            let ghost parts = old(self).partitions@;
            let ghost p = parts[i as int];
            let ghost c = Color { r: 255, g: 0, b: 255, a: 255 };
            let ghost prev = debug_dabs(parts.take(i as int));
            let ghost a = line_dabs(p.offset_x as int, p.offset_y as int, p.offset_x + p.width, p.offset_y as int, c);
            let ghost b = line_dabs(p.offset_x as int, p.offset_y as int, p.offset_x as int, p.offset_y + p.height, c);
            proof {
                assert(parts.take(i + 1).drop_last() =~= parts.take(i as int));
                assert(parts.take(i + 1).last() == p);
                assert(debug_dabs(parts.take(i + 1)) == prev + a + b);
                lemma_debug_dabs_prefix(parts, i as int + 1);
                let rest = all.subrange((prev + a + b).len() as int, all.len() as int);
                assert(all =~= prev + a + b + rest);
                lemma_plot_seq_concat(cv, pix0, prev + a + b, rest, true);
                lemma_plot_seq_concat(cv, pix0, prev + a, b, true);
                lemma_plot_seq_concat(cv, pix0, prev, a, true);
                assert(self.partitions@[i as int].wf());
            }
            let ox: i32 = self.partitions[i].offset_x as i32;
            let oy: i32 = self.partitions[i].offset_y as i32;
            let ex: i32 = (self.partitions[i].offset_x + self.partitions[i].width) as i32;
            let ey: i32 = (self.partitions[i].offset_y + self.partitions[i].height) as i32;
            self.buffer.pline(ox, oy, ex, oy, Color::new(255, 0, 255, 255));
            self.buffer.pline(ox, oy, ox, ey, Color::new(255, 0, 255, 255));
            proof {
                let rest = all.subrange((prev + a + b).len() as int, all.len() as int);
                assert(all =~= debug_dabs(parts.take(i + 1)) + rest);
            }
            i = i + 1;
        }
        proof {
            assert(old(self).partitions@.take(n as int) =~= old(self).partitions@);
        }
    }

    /// Makes a partitioned buffer of the given size, split for `cores` cores (0: the number
    /// of CPUs of this machine), that draws in parallel from `threshold` pixels on.
    pub fn new(width: usize, height: usize, cores: usize, threshold: u32) -> (pr: PartitionedBuffer)
        requires
            width <= i32::MAX,
            height <= i32::MAX,
            width * height * 4 <= usize::MAX,
        ensures
            pr.partitions@.len() >= 1,
            pr.laid_out(),
            forall|px: int, py: int|
                0 <= px < pr.buffer.width && 0 <= py < pr.buffer.height ==> #[trigger] in_some_partition(pr, px, py),
            forall|j: int, k: int, px: int, py: int|
                0 <= j < pr.partitions@.len() && 0 <= k < pr.partitions@.len() && #[trigger] in_cell(px, py, pr.partitions@[j])
                    && #[trigger] in_cell(px, py, pr.partitions@[k]) ==> j == k,
            pr.gridded(),
            pr.wf(),
            pr.partitioned(),
            pr.buffer.width == width,
            pr.buffer.height == height,
            pr.buffer.offset_x == 0,
            pr.buffer.offset_y == 0,
            pr.buffer.is_drawing,
            pr.buffer.shader_stack@.len() == 0,
            pr.buffer.color@ == Seq::new((width * height * 4) as nat, |i: int| 0u8),
            pr.threshold == threshold,
            cores != 0 ==> pr.scheme == scheme_for_spec(cores as int, width as int, height as int),
            cores == 0 ==> exists|n: int| n >= 1 && pr.scheme == scheme_for_spec(n, width as int, height as int),
    {
        let mut pr = PartitionedBuffer {
            buffer: Buffer::new(width, height),
            partitions: Vec::new(),
            scheme: PartitionScheme::Full,
            threshold,
        };
        pr.set_core_limit(cores);
        proof {
            lemma_partitioned_gridded(pr);
            law_partitions_tile(pr);
        }
        pr
    }
}

} // verus!

verus! {

impl Buffer {
    /// A partitioned buffer, split for the CPUs of this machine, holding a copy of this
    /// buffer's pixels.
    pub fn into_partitioned(&self) -> (pr: PartitionedBuffer)
        requires
            self.wf(),
        ensures
            pr.wf(),
            pr.partitioned(),
            pr.buffer.width == self.width,
            pr.buffer.height == self.height,
            pr.buffer.color@ == self.color@,
            pr.buffer.shader_stack@.len() == 0,
            pr.buffer.is_drawing,
            pr.threshold == PartitionedBuffer::PARALLEL_THRESHOLD_DEFAULT,
            exists|n: int| n >= 1 && pr.scheme == scheme_for_spec(n, self.width as int, self.height as int),
    {
        let len: usize = self.color.len();
        let mut pr = PartitionedBuffer::new(self.width, self.height, 0, PartitionedBuffer::PARALLEL_THRESHOLD_DEFAULT);
        pr.buffer.blit(self, 0, 0);
        pr
    }
}

/// A cell of a row of `total` pixels split into `n` cells, placed at `i * (total / n)`,
/// ends inside the row; the last cell ends at its end.
pub proof fn lemma_cell_inside(total: int, n: int, i: int)
    requires
        total >= 0,
        1 <= n,
        0 <= i < n,
    ensures
        0 <= total / n,
        0 <= i * (total / n),
        0 <= cell_len(total, n, i),
        i * (total / n) + cell_len(total, n, i) <= total,
        i == n - 1 ==> i * (total / n) + cell_len(total, n, i) == total,
{
    let c = total / n;
    assert(0 <= c && c * n <= total) by (nonlinear_arith)
        requires
            c == total / n,
            n >= 1,
            total >= 0,
    ;
    assert(0 <= i * c && i * c + c <= n * c && (n - 1) * c <= n * c) by (nonlinear_arith)
        requires
            0 <= i < n,
            c >= 0,
    ;
    assert(c * n == n * c) by (nonlinear_arith);
}

/// With a threshold of 0 a partitioned buffer never draws part by part: `prectangle`,
/// `pimg` and `pimgrect` then draw into the whole buffer as `Buffer` does.
pub proof fn law_threshold_zero_draws_whole(pb: PartitionedBuffer, image: Buffer, filled: bool, width: int, height: int)
    requires
        pb.threshold == 0,
    ensures
        !parallel_image(pb, image),
        !parallel_rect(pb, filled, width, height),
{
}

/// A freshly split buffer is laid out as the grid of its scheme.
pub proof fn lemma_partitioned_gridded(pb: PartitionedBuffer)
    requires
        pb.wf(),
        pb.partitioned(),
    ensures
        pb.gridded(),
{
    let (nx, ny) = scheme_grid(pb.scheme);
    let w = pb.buffer.width as int;
    let h = pb.buffer.height as int;
    assert forall|k: int| 0 <= k < pb.partitions@.len() implies grid_cell(#[trigger] pb.partitions@[k], w, h, nx, ny, k) by {
        assert(fresh_partition(pb.partitions@[k], cell_len(w, nx, k % nx), cell_len(h, ny, k / nx), (k % nx) * (w / nx), (k / nx) * (h / ny)));
    }
}

/// The partitions of a buffer laid out as a grid lie inside it.
pub proof fn law_partitions_inside(pb: PartitionedBuffer)
    requires
        pb.gridded(),
    ensures
        pb.laid_out(),
{
    let (nx, ny) = scheme_grid(pb.scheme);
    let w = pb.buffer.width as int;
    let h = pb.buffer.height as int;
    assert forall|k: int| 0 <= k < pb.partitions@.len() implies (#[trigger] pb.partitions@[k]).offset_x + pb.partitions@[k].width
        <= pb.buffer.width && pb.partitions@[k].offset_y + pb.partitions@[k].height <= pb.buffer.height by {
        assert(grid_cell(pb.partitions@[k], w, h, nx, ny, k));
        assert(k / nx < ny) by (nonlinear_arith)
            requires
                0 <= k < nx * ny,
                1 <= nx,
        ;
        lemma_cell_inside(w, nx, k % nx);
        lemma_cell_inside(h, ny, k / nx);
    }
}

} // verus!
