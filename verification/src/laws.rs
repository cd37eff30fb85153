//! What holds of every rectangle set.

use vstd::prelude::*;

use crate::mask::{
    binarized, cell_on, complement, count_lit, is_binary_mask, is_covered, is_frame_rect_set,
    is_merged_rect, is_row_runs, is_run, lemma_cell_of_index, lemma_merged_rects_sharing_row,
    lemma_rect_set_no_duplicates, lemma_runs_sharing_cell, lists_run, origin_before,
    rect_covers, rects_overlap, rendered, run_above,
};
use crate::rectframes::Rect;

verus! {

/// Two run lists of one row agree on their first `n` entries.
proof fn lemma_row_runs_agree(
    mask: Seq<u8>,
    w: int,
    y: int,
    a: Seq<(usize, usize)>,
    b: Seq<(usize, usize)>,
    n: int,
)
    requires
        is_row_runs(mask, w, y, a),
        is_row_runs(mask, w, y, b),
        0 <= n <= a.len(),
        n <= b.len(),
    ensures
        forall|i: int| 0 <= i < n ==> a[i] == b[i],
    decreases n,
{
    if n > 0 {
        lemma_row_runs_agree(mask, w, y, a, b, n - 1);
        let m = n - 1;
        assert(is_run(mask, w, y, a[m].0 as int, a[m].1 as int));
        assert(lists_run(b, a[m].0 as int, a[m].1 as int));
        let j = choose|j: int| 0 <= j < b.len() && (#[trigger] b[j]).0 == a[m].0 && b[j].1 == a[m].1;
        assert(is_run(mask, w, y, b[m].0 as int, b[m].1 as int));
        assert(lists_run(a, b[m].0 as int, b[m].1 as int));
        let k = choose|k: int| 0 <= k < a.len() && (#[trigger] a[k]).0 == b[m].0 && a[k].1 == b[m].1;
        if j < m {
            assert(a[j] == b[j]);
            assert(a[j].0 < a[m].0);
        }
        if k < m {
            assert(a[k] == b[k]);
            assert(b[k].0 < b[m].0);
        }
        if j > m {
            assert(b[m].0 < b[j].0);
        }
        if k > m {
            assert(a[m].0 < a[k].0);
        }
    }
}

/// A row has one list of runs: the contract of the row scan leaves no choice.
pub proof fn lemma_row_runs_unique(
    mask: Seq<u8>,
    w: int,
    y: int,
    a: Seq<(usize, usize)>,
    b: Seq<(usize, usize)>,
)
    requires
        is_row_runs(mask, w, y, a),
        is_row_runs(mask, w, y, b),
    ensures
        a == b,
{
    let n = if a.len() <= b.len() {
        a.len() as int
    } else {
        b.len() as int
    };
    lemma_row_runs_agree(mask, w, y, a, b, n);
    if a.len() > n {
        assert(is_run(mask, w, y, a[n].0 as int, a[n].1 as int));
        assert(lists_run(b, a[n].0 as int, a[n].1 as int));
        let j = choose|j: int| 0 <= j < b.len() && (#[trigger] b[j]).0 == a[n].0 && b[j].1 == a[n].1;
        assert(a[j] == b[j]);
        assert(a[j].0 < a[n].0);
    }
    if b.len() > n {
        assert(is_run(mask, w, y, b[n].0 as int, b[n].1 as int));
        assert(lists_run(a, b[n].0 as int, b[n].1 as int));
        let j = choose|j: int| 0 <= j < a.len() && (#[trigger] a[j]).0 == b[n].0 && a[j].1 == b[n].1;
        assert(a[j] == b[j]);
        assert(b[j].0 < b[n].0);
    }
    assert(a =~= b);
}

/// Two rectangle sets of one mask agree on their first `n` entries.
proof fn lemma_rect_sets_agree(mask: Seq<u8>, w: int, h: int, a: Seq<Rect>, b: Seq<Rect>, n: int)
    requires
        is_frame_rect_set(mask, w, h, a),
        is_frame_rect_set(mask, w, h, b),
        0 <= n <= a.len(),
        n <= b.len(),
    ensures
        forall|i: int| 0 <= i < n ==> a[i] == b[i],
    decreases n,
{
    if n > 0 {
        lemma_rect_sets_agree(mask, w, h, a, b, n - 1);
        let m = n - 1;
        assert(is_merged_rect(mask, w, h, a[m]));
        assert(b.contains(a[m]));
        let j = choose|j: int| 0 <= j < b.len() && b[j] == a[m];
        assert(is_merged_rect(mask, w, h, b[m]));
        assert(a.contains(b[m]));
        let k = choose|k: int| 0 <= k < a.len() && a[k] == b[m];
        if j < m {
            assert(a[j] == b[j]);
            assert(origin_before(a[j], a[m]));
        }
        if k < m {
            assert(a[k] == b[k]);
            assert(origin_before(b[k], b[m]));
        }
        if j > m {
            assert(origin_before(b[m], b[j]));
        }
        if k > m {
            assert(origin_before(a[m], a[k]));
        }
    }
}

/// A mask has one rectangle set: the contract of the merger leaves no choice.
pub proof fn lemma_rect_set_unique(mask: Seq<u8>, w: int, h: int, a: Seq<Rect>, b: Seq<Rect>)
    requires
        is_frame_rect_set(mask, w, h, a),
        is_frame_rect_set(mask, w, h, b),
    ensures
        a == b,
{
    let n = if a.len() <= b.len() {
        a.len() as int
    } else {
        b.len() as int
    };
    lemma_rect_sets_agree(mask, w, h, a, b, n);
    if a.len() > n {
        assert(is_merged_rect(mask, w, h, a[n]));
        assert(b.contains(a[n]));
        let j = choose|j: int| 0 <= j < b.len() && b[j] == a[n];
        assert(a[j] == b[j]);
        assert(origin_before(a[j], a[n]));
    }
    if b.len() > n {
        assert(is_merged_rect(mask, w, h, b[n]));
        assert(a.contains(b[n]));
        let j = choose|j: int| 0 <= j < a.len() && a[j] == b[n];
        assert(a[j] == b[j]);
        assert(origin_before(b[j], b[n]));
    }
    assert(a =~= b);
}

/// The first column of the unbroken stretch of lit cells that holds `(x, y)`.
proof fn lemma_run_left(mask: Seq<u8>, w: int, y: int, x: int) -> (s: int)
    requires
        0 <= x,
        cell_on(mask, w, x, y),
    ensures
        0 <= s <= x,
        forall|c: int| s <= c <= x ==> cell_on(mask, w, c, y),
        s == 0 || !cell_on(mask, w, s - 1, y),
    decreases x,
{
    if x == 0 || !cell_on(mask, w, x - 1, y) {
        x
    } else {
        lemma_run_left(mask, w, y, x - 1)
    }
}

/// The column after the last of the unbroken stretch of lit cells that holds
/// `(x, y)`.
proof fn lemma_run_right(mask: Seq<u8>, w: int, y: int, x: int) -> (e: int)
    requires
        0 <= x < w,
        cell_on(mask, w, x, y),
    ensures
        x < e <= w,
        forall|c: int| x <= c < e ==> cell_on(mask, w, c, y),
        e == w || !cell_on(mask, w, e, y),
    decreases w - x,
{
    if x + 1 == w || !cell_on(mask, w, x + 1, y) {
        x + 1
    } else {
        lemma_run_right(mask, w, y, x + 1)
    }
}

/// The first of the consecutive rows up to `y` that all have the run
/// `(x, len)`.
proof fn lemma_stack_top(mask: Seq<u8>, w: int, y: int, x: int, len: int) -> (top: int)
    requires
        0 <= y,
        is_run(mask, w, y, x, len),
    ensures
        0 <= top <= y,
        forall|row: int| top <= row <= y ==> is_run(mask, w, row, x, len),
        !run_above(mask, w, top, x, len),
    decreases y,
{
    if run_above(mask, w, y, x, len) {
        lemma_stack_top(mask, w, y - 1, x, len)
    } else {
        y
    }
}

/// The row after the last of the consecutive rows from `y` on that all have
/// the run `(x, len)`.
proof fn lemma_stack_bottom(mask: Seq<u8>, w: int, h: int, y: int, x: int, len: int) -> (bottom:
    int)
    requires
        0 <= y < h,
        is_run(mask, w, y, x, len),
    ensures
        y < bottom <= h,
        forall|row: int| y <= row < bottom ==> is_run(mask, w, row, x, len),
        bottom == h || !is_run(mask, w, bottom, x, len),
    decreases h - y,
{
    if y + 1 == h || !is_run(mask, w, y + 1, x, len) {
        y + 1
    } else {
        lemma_stack_bottom(mask, w, h, y + 1, x, len)
    }
}

/// A lit cell lies in a stacked run.
proof fn lemma_rect_around(mask: Seq<u8>, w: int, h: int, x: int, y: int) -> (r: Rect)
    requires
        0 <= x < w <= u32::MAX,
        0 <= y < h <= u32::MAX,
        cell_on(mask, w, x, y),
    ensures
        is_merged_rect(mask, w, h, r),
        rect_covers(r, x, y),
{
    let s = lemma_run_left(mask, w, y, x);
    let e = lemma_run_right(mask, w, y, x);
    assert(is_run(mask, w, y, s, e - s));
    let top = lemma_stack_top(mask, w, y, s, e - s);
    let bottom = lemma_stack_bottom(mask, w, h, y, s, e - s);
    Rect { x: s as u32, y: top as u32, w: (e - s) as u32, h: (bottom - top) as u32, v: 1 }
}

/// The rectangles of a rectangle set cover the lit cells of the mask and no
/// other cell, and no cell is covered by two of them.
pub proof fn lemma_rects_cover_lit_cells(mask: Seq<u8>, w: int, h: int, rects: Seq<Rect>)
    requires
        0 <= w <= u32::MAX,
        0 <= h <= u32::MAX,
        is_frame_rect_set(mask, w, h, rects),
    ensures
        forall|x: int, y: int|
            #![trigger is_covered(rects, x, y)]
            #![trigger cell_on(mask, w, x, y)]
            is_covered(rects, x, y) <==> 0 <= x < w && 0 <= y < h && cell_on(mask, w, x, y),
        forall|i: int, j: int, x: int, y: int|
            0 <= i < rects.len() && 0 <= j < rects.len() && #[trigger] rect_covers(rects[i], x, y)
                && #[trigger] rect_covers(rects[j], x, y) ==> i == j,
{
    assert forall|x: int, y: int|
        #![trigger is_covered(rects, x, y)]
        #![trigger cell_on(mask, w, x, y)]
        is_covered(rects, x, y) <==> 0 <= x < w && 0 <= y < h && cell_on(mask, w, x, y) by {
        if is_covered(rects, x, y) {
            let i = choose|i: int| 0 <= i < rects.len() && rect_covers(#[trigger] rects[i], x, y);
            assert(is_merged_rect(mask, w, h, rects[i]));
            assert(is_run(mask, w, y, rects[i].x as int, rects[i].w as int));
        }
        if 0 <= x < w && 0 <= y < h && cell_on(mask, w, x, y) {
            let r = lemma_rect_around(mask, w, h, x, y);
            assert(rects.contains(r));
        }
    }
    assert forall|i: int, j: int, x: int, y: int|
        0 <= i < rects.len() && 0 <= j < rects.len() && #[trigger] rect_covers(rects[i], x, y)
            && #[trigger] rect_covers(rects[j], x, y) implies i == j by {
        lemma_covering_rect_unique(mask, w, h, rects, i, j, x, y);
    }
}

/// Two entries of a rectangle set that cover one cell are the same entry.
proof fn lemma_covering_rect_unique(
    mask: Seq<u8>,
    w: int,
    h: int,
    rects: Seq<Rect>,
    i: int,
    j: int,
    x: int,
    y: int,
)
    requires
        is_frame_rect_set(mask, w, h, rects),
        0 <= i < rects.len(),
        0 <= j < rects.len(),
        rect_covers(rects[i], x, y),
        rect_covers(rects[j], x, y),
    ensures
        i == j,
{
    let a = rects[i];
    let b = rects[j];
    assert(is_merged_rect(mask, w, h, a));
    assert(is_merged_rect(mask, w, h, b));
    assert(is_run(mask, w, y, a.x as int, a.w as int));
    assert(is_run(mask, w, y, b.x as int, b.w as int));
    lemma_runs_sharing_cell(mask, w, y, a.x as int, a.w as int, b.x as int, b.w as int, x);
    lemma_merged_rects_sharing_row(mask, w, h, a, b, y);
    lemma_rect_set_no_duplicates(mask, w, h, rects, i, j);
}

/// No two rectangles of a rectangle set overlap.
pub proof fn lemma_rects_disjoint(mask: Seq<u8>, w: int, h: int, rects: Seq<Rect>)
    requires
        is_frame_rect_set(mask, w, h, rects),
    ensures
        forall|i: int, j: int|
            0 <= i < rects.len() && 0 <= j < rects.len() && i != j ==> !rects_overlap(
                #[trigger] rects[i],
                #[trigger] rects[j],
            ),
{
    assert forall|i: int, j: int|
        0 <= i < rects.len() && 0 <= j < rects.len() && i != j implies !rects_overlap(
        #[trigger] rects[i],
        #[trigger] rects[j],
    ) by {
        let a = rects[i];
        let b = rects[j];
        if rects_overlap(a, b) {
            assert(is_merged_rect(mask, w, h, a));
            assert(is_merged_rect(mask, w, h, b));
            assert(is_run(mask, w, a.y as int, a.x as int, a.w as int));
            assert(is_run(mask, w, b.y as int, b.x as int, b.w as int));
            let x = if a.x >= b.x {
                a.x as int
            } else {
                b.x as int
            };
            let y = if a.y >= b.y {
                a.y as int
            } else {
                b.y as int
            };
            lemma_covering_rect_unique(mask, w, h, rects, i, j, x, y);
        }
    }
}

/// Drawing the rectangle set of a binary mask gives the mask back.
pub proof fn lemma_render_restores_mask(mask: Seq<u8>, w: int, h: int, rects: Seq<Rect>)
    requires
        w <= u32::MAX,
        h <= u32::MAX,
        is_binary_mask(mask, w, h),
        is_frame_rect_set(mask, w, h, rects),
    ensures
        rendered(rects, w, h) == mask,
{
    lemma_rects_cover_lit_cells(mask, w, h, rects);
    let drawn = rendered(rects, w, h);
    assert forall|k: int| 0 <= k < mask.len() implies drawn[k] == mask[k] by {
        lemma_cell_of_index(w, h, k);
        assert(is_covered(rects, k % w, k / w) <==> cell_on(mask, w, k % w, k / w));
    }
    assert(drawn =~= mask);
}

/// Merging again changes nothing: the rectangle set of the mask that a
/// rectangle set draws is that rectangle set, entry by entry.
pub proof fn lemma_remerge_is_identity(
    mask: Seq<u8>,
    w: int,
    h: int,
    rects: Seq<Rect>,
    again: Seq<Rect>,
)
    requires
        w <= u32::MAX,
        h <= u32::MAX,
        is_binary_mask(mask, w, h),
        is_frame_rect_set(mask, w, h, rects),
        is_frame_rect_set(rendered(rects, w, h), w, h, again),
    ensures
        again == rects,
{
    lemma_render_restores_mask(mask, w, h, rects);
    lemma_rect_set_unique(mask, w, h, rects, again);
}

/// Without inversion, a higher cutoff turns no cell off, so the number of lit
/// cells does not go down.
pub proof fn lemma_threshold_monotone(gray: Seq<u8>, low: int, high: int)
    requires
        low <= high,
    ensures
        count_lit(binarized(gray, low, false)) <= count_lit(binarized(gray, high, false)),
    decreases gray.len(),
{
    if gray.len() > 0 {
        let rest = gray.drop_last();
        lemma_threshold_monotone(rest, low, high);
        assert(binarized(gray, low, false).drop_last() =~= binarized(rest, low, false));
        assert(binarized(gray, high, false).drop_last() =~= binarized(rest, high, false));
    }
}

/// The mask made with inversion is the complement, cell by cell, of the mask
/// made without it from the same buffer and cutoff.
pub proof fn lemma_invert_complements(gray: Seq<u8>, cutoff: int)
    ensures
        binarized(gray, cutoff, true) == complement(binarized(gray, cutoff, false)),
{
    assert(binarized(gray, cutoff, true) =~= complement(binarized(gray, cutoff, false)));
}

/// What `binarized` makes of a buffer of `w * h` pixels is a binary mask.
pub proof fn lemma_binarized_is_mask(gray: Seq<u8>, cutoff: int, invert: bool, w: int, h: int)
    requires
        0 <= w,
        0 <= h,
        gray.len() == w * h,
    ensures
        is_binary_mask(binarized(gray, cutoff, invert), w, h),
{
}

} // verus!
