//! The mathematical model: binary masks, runs and rectangles.

use vstd::prelude::*;

use crate::rectframes::Rect;

verus! {

/// Position of cell `(x, y)` in a row-major buffer whose rows are `w` cells wide.
pub open spec fn cell_index(w: int, x: int, y: int) -> int {
    y * w + x
}

/// A binary mask of `w` by `h` cells: one byte per cell, row after row, each 0
/// ("off") or 1 ("on").
pub open spec fn is_binary_mask(mask: Seq<u8>, w: int, h: int) -> bool {
    &&& 0 <= w
    &&& 0 <= h
    &&& mask.len() == w * h
    &&& forall|i: int| 0 <= i < mask.len() ==> mask[i] == 0 || mask[i] == 1
}

/// The mask of a grayscale buffer: a cell is on where the pixel's intensity is
/// less than `cutoff`, and with `invert` where it is not.
pub open spec fn binarized(gray: Seq<u8>, cutoff: int, invert: bool) -> Seq<u8> {
    Seq::new(
        gray.len(),
        |i: int|
            if (gray[i] < cutoff) != invert {
                1u8
            } else {
                0u8
            },
    )
}

/// The mask with every cell switched: on where `mask` is off, and off where it
/// is on.
pub open spec fn complement(mask: Seq<u8>) -> Seq<u8> {
    Seq::new(
        mask.len(),
        |i: int|
            if mask[i] == 0 {
                1u8
            } else {
                0u8
            },
    )
}

/// The number of cells of the mask that are on.
pub open spec fn count_lit(mask: Seq<u8>) -> nat
    decreases mask.len(),
{
    if mask.len() == 0 {
        0
    } else {
        count_lit(mask.drop_last()) + if mask.last() == 1 {
            1nat
        } else {
            0nat
        }
    }
}

/// The sum of the intensities of all pixels.
pub open spec fn intensity_sum(gray: Seq<u8>) -> nat
    decreases gray.len(),
{
    if gray.len() == 0 {
        0
    } else {
        intensity_sum(gray.drop_last()) + gray.last() as nat
    }
}

/// Cell `(x, y)` of the mask is on.
pub open spec fn cell_on(mask: Seq<u8>, w: int, x: int, y: int) -> bool {
    mask[cell_index(w, x, y)] == 1
}

/// The cells `[x, x + len)` of row `y` form a run: all of them are on, and the
/// run cannot be extended to the left or to the right.
pub open spec fn is_run(mask: Seq<u8>, w: int, y: int, x: int, len: int) -> bool {
    &&& 0 <= x
    &&& 0 < len
    &&& x + len <= w
    &&& forall|c: int| x <= c < x + len ==> cell_on(mask, w, c, y)
    &&& (x == 0 || !cell_on(mask, w, x - 1, y))
    &&& (x + len == w || !cell_on(mask, w, x + len, y))
}

/// `runs` holds a pair `(start, length)` for the run that starts at `x` with
/// length `len`.
pub open spec fn lists_run(runs: Seq<(usize, usize)>, x: int, len: int) -> bool {
    exists|k: int| 0 <= k < runs.len() && (#[trigger] runs[k]).0 == x && runs[k].1 == len
}

/// `runs` is the list of all runs of row `y`, from left to right.
pub open spec fn is_row_runs(mask: Seq<u8>, w: int, y: int, runs: Seq<(usize, usize)>) -> bool {
    &&& forall|k: int|
        0 <= k < runs.len() ==> is_run(mask, w, y, (#[trigger] runs[k]).0 as int, runs[k].1 as int)
    &&& forall|x: int, len: int| #[trigger] is_run(mask, w, y, x, len) ==> lists_run(runs, x, len)
    &&& forall|j: int, k: int|
        0 <= j < k < runs.len() ==> (#[trigger] runs[j]).0 < (#[trigger] runs[k]).0
}

/// Row `y` is not the first row, and the row above it has the run `(x, len)`.
pub open spec fn run_above(mask: Seq<u8>, w: int, y: int, x: int, len: int) -> bool {
    y > 0 && is_run(mask, w, y - 1, x, len)
}

/// In a mask of `h` rows, `r` is a run stacked as high as it goes: each of its
/// rows has exactly the run `(r.x, r.w)`, and neither the row above it nor the
/// row below it has that run.
pub open spec fn is_merged_rect(mask: Seq<u8>, w: int, h: int, r: Rect) -> bool {
    &&& r.v == 1
    &&& 0 < r.h
    &&& r.y + r.h <= h
    &&& forall|row: int| r.y <= row < r.y + r.h ==> is_run(mask, w, row, r.x as int, r.w as int)
    &&& !run_above(mask, w, r.y as int, r.x as int, r.w as int)
    &&& (r.y + r.h == h || !is_run(mask, w, r.y + r.h, r.x as int, r.w as int))
}

/// `a` starts in an earlier row than `b`, or in the same row further left.
pub open spec fn origin_before(a: Rect, b: Rect) -> bool {
    a.y < b.y || (a.y == b.y && a.x < b.x)
}

/// `rects` is the rectangle set of the mask: it holds the stacked runs of the
/// mask, all of them, in the order of their top-left corners (row by row, and
/// from left to right within a row).
pub open spec fn is_frame_rect_set(mask: Seq<u8>, w: int, h: int, rects: Seq<Rect>) -> bool {
    &&& forall|i: int| 0 <= i < rects.len() ==> is_merged_rect(mask, w, h, #[trigger] rects[i])
    &&& forall|r: Rect| #[trigger] is_merged_rect(mask, w, h, r) ==> rects.contains(r)
    &&& forall|i: int, j: int|
        0 <= i < j < rects.len() ==> origin_before(#[trigger] rects[i], #[trigger] rects[j])
}

/// Cell `(x, y)` lies inside rectangle `r`.
pub open spec fn rect_covers(r: Rect, x: int, y: int) -> bool {
    r.x <= x < r.x + r.w && r.y <= y < r.y + r.h
}

/// Some rectangle of `rects` covers cell `(x, y)`.
pub open spec fn is_covered(rects: Seq<Rect>, x: int, y: int) -> bool {
    exists|i: int| 0 <= i < rects.len() && rect_covers(#[trigger] rects[i], x, y)
}

/// The two rectangles have a cell in common.
pub open spec fn rects_overlap(a: Rect, b: Rect) -> bool {
    &&& a.x < b.x + b.w
    &&& b.x < a.x + a.w
    &&& a.y < b.y + b.h
    &&& b.y < a.y + a.h
}

/// The mask of `w` by `h` cells that the rectangles draw: a cell is on where a
/// rectangle covers it, and off elsewhere.
pub open spec fn rendered(rects: Seq<Rect>, w: int, h: int) -> Seq<u8> {
    Seq::new(
        (w * h) as nat,
        |k: int|
            if is_covered(rects, k % w, k / w) {
                1u8
            } else {
                0u8
            },
    )
}

/// Every cell `(x, y)` of a `w` by `h` grid has a position inside the buffer.
pub proof fn lemma_cell_index_in_bounds(w: int, h: int, x: int, y: int)
    requires
        0 <= x < w,
        0 <= y < h,
    ensures
        0 <= cell_index(w, x, y) < w * h,
{
    assert(0 <= y * w && y * w + w <= w * h) by (nonlinear_arith)
        requires
            0 <= y < h,
            0 < w,
    ;
}

/// A run is determined by the cell it starts at.
pub proof fn lemma_run_length_unique(mask: Seq<u8>, w: int, y: int, x: int, len1: int, len2: int)
    requires
        is_run(mask, w, y, x, len1),
        is_run(mask, w, y, x, len2),
    ensures
        len1 == len2,
{
    if len1 < len2 {
        assert(cell_on(mask, w, x + len1, y));
    } else if len2 < len1 {
        assert(cell_on(mask, w, x + len2, y));
    }
}

/// Two stacked runs with the same columns that share a row are the same
/// rectangle.
pub proof fn lemma_merged_rects_sharing_row(mask: Seq<u8>, w: int, h: int, a: Rect, b: Rect, row: int)
    requires
        is_merged_rect(mask, w, h, a),
        is_merged_rect(mask, w, h, b),
        a.x == b.x,
        a.w == b.w,
        a.y <= row < a.y + a.h,
        b.y <= row < b.y + b.h,
    ensures
        a == b,
{
    if a.y < b.y {
        assert(is_run(mask, w, b.y - 1, a.x as int, a.w as int));
    } else if b.y < a.y {
        assert(is_run(mask, w, a.y - 1, b.x as int, b.w as int));
    }
    if a.y + a.h < b.y + b.h {
        assert(is_run(mask, w, a.y + a.h, b.x as int, b.w as int));
    } else if b.y + b.h < a.y + a.h {
        assert(is_run(mask, w, b.y + b.h, a.x as int, a.w as int));
    }
}

/// In a rectangle set, two entries that are the same rectangle are the same
/// entry.
pub proof fn lemma_rect_set_no_duplicates(mask: Seq<u8>, w: int, h: int, rects: Seq<Rect>, i: int, j: int)
    requires
        is_frame_rect_set(mask, w, h, rects),
        0 <= i < rects.len(),
        0 <= j < rects.len(),
        rects[i] == rects[j],
    ensures
        i == j,
{
    if i < j {
        assert(origin_before(rects[i], rects[j]));
    } else if j < i {
        assert(origin_before(rects[j], rects[i]));
    }
}

/// Two runs of one row that share a cell are the same run.
pub proof fn lemma_runs_sharing_cell(
    mask: Seq<u8>,
    w: int,
    y: int,
    x1: int,
    len1: int,
    x2: int,
    len2: int,
    c: int,
)
    requires
        is_run(mask, w, y, x1, len1),
        is_run(mask, w, y, x2, len2),
        x1 <= c < x1 + len1,
        x2 <= c < x2 + len2,
    ensures
        x1 == x2,
        len1 == len2,
{
    if x1 < x2 {
        assert(cell_on(mask, w, x2 - 1, y));
    } else if x2 < x1 {
        assert(cell_on(mask, w, x1 - 1, y));
    }
    lemma_run_length_unique(mask, w, y, x1, len1, len2);
}

/// A position in the buffer of a `w` by `h` grid is the position of the cell
/// in column `k % w` of row `k / w`.
pub proof fn lemma_cell_of_index(w: int, h: int, k: int)
    requires
        0 <= w,
        0 <= h,
        0 <= k < w * h,
    ensures
        0 <= k % w < w,
        0 <= k / w < h,
        cell_index(w, k % w, k / w) == k,
{
    assert(w > 0) by (nonlinear_arith)
        requires
            0 <= w,
            0 <= k < w * h,
    ;
    vstd::arithmetic::div_mod::lemma_fundamental_div_mod(k, w);
    vstd::arithmetic::div_mod::lemma_mod_bound(k, w);
    let q = k / w;
    assert(w * q == q * w) by (nonlinear_arith);
    assert(0 <= q < h) by (nonlinear_arith)
        requires
            0 < w,
            0 <= k < w * h,
            k == q * w + k % w,
            0 <= k % w < w,
    ;
}

} // verus!
