//! Drawing operations described as sequences of "dabs": a dab is one pixel to draw,
//! with its position and color. A filled shape is the row-major sequence of the dabs
//! that a dab function chooses over a rectangle of positions; the enumeration works for
//! any kind of dab.
use vstd::prelude::*;
use crate::color::Color;

verus! {

/// One pixel that a drawing operation draws: x, y and color.
pub type Dab = (i32, i32, Color);

/// The dabs that `f` chooses on row `y` for the columns `xs..xe`, left to right.
pub open spec fn row_dabs<D>(y: int, xs: int, xe: int, f: spec_fn(int, int) -> Option<D>) -> Seq<D>
    decreases xe - xs,
{
    if xe <= xs {
        Seq::empty()
    } else {
        let prev = row_dabs(y, xs, xe - 1, f);
        match f(xe - 1, y) {
            Some(d) => prev.push(d),
            None => prev,
        }
    }
}

/// The dabs that `f` chooses on the rows `ys..ye` and the columns `xs..xe`, row by row.
pub open spec fn region_dabs<D>(ys: int, ye: int, xs: int, xe: int, f: spec_fn(int, int) -> Option<D>) -> Seq<D>
    decreases ye - ys,
{
    if ye <= ys {
        Seq::empty()
    } else {
        region_dabs(ys, ye - 1, xs, xe, f) + row_dabs(ye - 1, xs, xe, f)
    }
}

/// A row splits at any column between its ends.
pub proof fn lemma_row_split<D>(y: int, xs: int, x: int, xe: int, f: spec_fn(int, int) -> Option<D>)
    requires
        xs <= x <= xe,
    ensures
        row_dabs(y, xs, xe, f) == row_dabs(y, xs, x, f) + row_dabs(y, x, xe, f),
    decreases xe - x,
{
    if xe == x {
        assert(row_dabs(y, xs, x, f) + row_dabs(y, x, xe, f) =~= row_dabs(y, xs, x, f));
    } else {
        lemma_row_split(y, xs, x, xe - 1, f);
        let a = row_dabs(y, xs, x, f);
        let b = row_dabs(y, x, xe - 1, f);
        match f(xe - 1, y) {
            Some(d) => {
                assert((a + b).push(d) =~= a + b.push(d));
            },
            None => {},
        }
    }
}

/// A region splits at any row between its ends.
pub proof fn lemma_region_split<D>(ys: int, y: int, ye: int, xs: int, xe: int, f: spec_fn(int, int) -> Option<D>)
    requires
        ys <= y <= ye,
    ensures
        region_dabs(ys, ye, xs, xe, f) == region_dabs(ys, y, xs, xe, f) + region_dabs(y, ye, xs, xe, f),
    decreases ye - y,
{
    if ye == y {
        assert(region_dabs(ys, y, xs, xe, f) + region_dabs(y, ye, xs, xe, f) =~= region_dabs(ys, y, xs, xe, f));
    } else {
        lemma_region_split(ys, y, ye - 1, xs, xe, f);
        let a = region_dabs(ys, y, xs, xe, f);
        let b = region_dabs(y, ye - 1, xs, xe, f);
        let r = row_dabs(ye - 1, xs, xe, f);
        assert((a + b) + r =~= a + (b + r));
    }
}

/// The first row of a nonempty region comes before the rest of it.
pub proof fn lemma_region_first_row<D>(y: int, ye: int, xs: int, xe: int, f: spec_fn(int, int) -> Option<D>)
    requires
        y < ye,
    ensures
        region_dabs(y, ye, xs, xe, f) == row_dabs(y, xs, xe, f) + region_dabs(y + 1, ye, xs, xe, f),
{
    lemma_region_split(y, y + 1, ye, xs, xe, f);
    assert(region_dabs(y, y, xs, xe, f) =~= Seq::<D>::empty());
    assert(region_dabs(y, y + 1, xs, xe, f) =~= row_dabs(y, xs, xe, f));
}

/// Where the drawing of a region stands at row `y`, column `x`: the dabs drawn so far
/// and the dabs still to draw make up the whole region.
pub proof fn lemma_region_progress<D>(ys: int, y: int, ye: int, xs: int, x: int, xe: int, f: spec_fn(int, int) -> Option<D>)
    requires
        ys <= y < ye,
        xs <= x <= xe,
    ensures
        region_dabs(ys, ye, xs, xe, f) == (region_dabs(ys, y, xs, xe, f) + row_dabs(y, xs, x, f)) + (row_dabs(y, x, xe, f)
            + region_dabs(y + 1, ye, xs, xe, f)),
{
    lemma_region_split(ys, y, ye, xs, xe, f);
    lemma_region_first_row(y, ye, xs, xe, f);
    lemma_row_split(y, xs, x, xe, f);
    let a = region_dabs(ys, y, xs, xe, f);
    let b = row_dabs(y, xs, x, f);
    let c = row_dabs(y, x, xe, f);
    let d = region_dabs(y + 1, ye, xs, xe, f);
    assert(a + ((b + c) + d) =~= (a + b) + (c + d));
}

/// Every dab of a row comes from a column of that row.
pub proof fn lemma_row_dabs_from<D>(y: int, xs: int, xe: int, f: spec_fn(int, int) -> Option<D>, k: int)
    requires
        0 <= k < row_dabs(y, xs, xe, f).len(),
    ensures
        exists|x: int| xs <= x < xe && #[trigger] f(x, y) == Some(row_dabs(y, xs, xe, f)[k]),
    decreases xe - xs,
{
    if xe <= xs {
    } else {
        let prev = row_dabs(y, xs, xe - 1, f);
        if k < prev.len() {
            lemma_row_dabs_from(y, xs, xe - 1, f, k);
            let x = choose|x: int| xs <= x < xe - 1 && #[trigger] f(x, y) == Some(prev[k]);
            assert(xs <= x < xe && f(x, y) == Some(row_dabs(y, xs, xe, f)[k]));
        } else {
            assert(f(xe - 1, y) == Some(row_dabs(y, xs, xe, f)[k]));
        }
    }
}

/// Every dab of a region comes from a position of that region.
pub proof fn lemma_region_dabs_from<D>(ys: int, ye: int, xs: int, xe: int, f: spec_fn(int, int) -> Option<D>, k: int)
    requires
        0 <= k < region_dabs(ys, ye, xs, xe, f).len(),
    ensures
        exists|x: int, y: int| xs <= x < xe && ys <= y < ye && #[trigger] f(x, y) == Some(region_dabs(ys, ye, xs, xe, f)[k]),
    decreases ye - ys,
{
    if ye <= ys {
    } else {
        let prev = region_dabs(ys, ye - 1, xs, xe, f);
        let row = row_dabs(ye - 1, xs, xe, f);
        if k < prev.len() {
            lemma_region_dabs_from(ys, ye - 1, xs, xe, f, k);
            let (x, y) = choose|x: int, y: int| xs <= x < xe && ys <= y < ye - 1 && #[trigger] f(x, y) == Some(prev[k]);
            assert(xs <= x < xe && ys <= y < ye && f(x, y) == Some(region_dabs(ys, ye, xs, xe, f)[k]));
        } else {
            lemma_row_dabs_from(ye - 1, xs, xe, f, k - prev.len());
            let x = choose|x: int| xs <= x < xe && #[trigger] f(x, ye - 1) == Some(row[k - prev.len()]);
            assert(xs <= x < xe && ys <= ye - 1 < ye && f(x, ye - 1) == Some(region_dabs(ys, ye, xs, xe, f)[k]));
        }
    }
}

/// The runs `g(s)`, `g(s + 1)`, ..., `g(e - 1)` one after the other.
pub open spec fn runs<D>(s: int, e: int, g: spec_fn(int) -> Seq<D>) -> Seq<D>
    decreases e - s,
{
    if e <= s {
        Seq::empty()
    } else {
        runs(s, e - 1, g) + g(e - 1)
    }
}

/// The runs split at any index between their ends.
pub proof fn lemma_runs_split<D>(s: int, m: int, e: int, g: spec_fn(int) -> Seq<D>)
    requires
        s <= m <= e,
    ensures
        runs(s, e, g) == runs(s, m, g) + runs(m, e, g),
    decreases e - m,
{
    if e == m {
        assert(runs(s, m, g) + runs(m, e, g) =~= runs(s, m, g));
    } else {
        lemma_runs_split(s, m, e - 1, g);
        let a = runs(s, m, g);
        let b = runs(m, e - 1, g);
        assert((a + b) + g(e - 1) =~= a + (b + g(e - 1)));
    }
}

} // verus!
