//! The state of the merger between two runs of a row, and why each step keeps
//! it.

use vstd::prelude::*;

use crate::mask::{
    is_frame_rect_set, is_merged_rect, is_row_runs, is_run, lemma_merged_rects_sharing_row,
    lemma_rect_set_no_duplicates, lists_run, origin_before, run_above,
};
use crate::rectframes::Rect;

verus! {

/// The number under which the run `(x, len)` is looked up from one row to the
/// next. Different runs of at most `u32::MAX` columns have different keys.
pub(crate) open spec fn run_key(x: int, len: int) -> int {
    x * 0x1_0000_0000 + len
}

/// `active` knows the rectangles that end just above row `y`: it maps the key
/// of each run of row `y - 1` to the place in `rects` of the rectangle that
/// this run is the last row of, and holds nothing else.
pub(crate) open spec fn is_active_map(active: Map<u64, usize>, mask: Seq<u8>, w: int, y: int, rects: Seq<Rect>) -> bool {
    &&& forall|key: u64| #[trigger]
        active.contains_key(key) ==> {
            let i = active[key] as int;
            &&& i < rects.len()
            &&& key == run_key(rects[i].x as int, rects[i].w as int)
            &&& rects[i].y + rects[i].h == y
        }
    &&& forall|x: int, len: int| #[trigger]
        run_above(mask, w, y, x, len) ==> active.contains_key(run_key(x, len) as u64)
}

/// The rectangle `r` of the rows above `y`, after the runs of row `y` that
/// start left of `fx` have been merged: one row higher if it ended just above
/// row `y` and its run is among them.
pub(crate) open spec fn grown(mask: Seq<u8>, w: int, y: int, fx: int, r: Rect) -> Rect {
    if r.y + r.h == y && r.x < fx && is_run(mask, w, y, r.x as int, r.w as int) {
        Rect { h: (r.h + 1) as u32, ..r }
    } else {
        r
    }
}

/// `r` is a rectangle that a run of row `y` left of `fx` has opened.
pub(crate) open spec fn is_opened(mask: Seq<u8>, w: int, y: int, fx: int, r: Rect) -> bool {
    &&& r.y == y
    &&& r.h == 1
    &&& r.v == 1
    &&& r.x < fx
    &&& is_run(mask, w, y, r.x as int, r.w as int)
    &&& !run_above(mask, w, y, r.x as int, r.w as int)
}

/// The state in the middle of row `y`, when the runs that start left of `fx`
/// have been merged into `before`, the rectangle set of the rows above.
pub(crate) open spec fn row_merged_up_to(
    mask: Seq<u8>,
    w: int,
    y: int,
    fx: int,
    before: Seq<Rect>,
    rects: Seq<Rect>,
    next: Map<u64, usize>,
) -> bool {
    &&& before.len() <= rects.len()
    &&& forall|i: int|
        0 <= i < before.len() ==> #[trigger] rects[i] == grown(mask, w, y, fx, before[i])
    &&& forall|i: int|
        before.len() <= i < rects.len() ==> is_opened(mask, w, y, fx, #[trigger] rects[i])
    &&& forall|i: int, j: int|
        before.len() <= i < j < rects.len() ==> (#[trigger] rects[i]).x < (#[trigger] rects[j]).x
    &&& forall|key: u64| #[trigger]
        next.contains_key(key) ==> {
            let i = next[key] as int;
            &&& i < rects.len()
            &&& key == run_key(rects[i].x as int, rects[i].w as int)
            &&& rects[i].y + rects[i].h == y + 1
        }
    &&& forall|x: int, len: int| #[trigger]
        is_run(mask, w, y, x, len) && x < fx ==> next.contains_key(run_key(x, len) as u64)
}

/// Where the scan of a row stands when `k` of its runs are done: at the start
/// of the next run, or at the end of the row.
pub(crate) open spec fn frontier(runs: Seq<(usize, usize)>, w: int, k: int) -> int {
    if k < runs.len() {
        runs[k].0 as int
    } else {
        w
    }
}

/// Between two neighbouring entries of a row's run list no other run starts.
pub(crate) proof fn lemma_run_in_gap(mask: Seq<u8>, w: int, y: int, runs: Seq<(usize, usize)>, k: int, x: int, len: int)
    requires
        is_row_runs(mask, w, y, runs),
        0 <= k < runs.len(),
        is_run(mask, w, y, x, len),
        frontier(runs, w, k) <= x < frontier(runs, w, k + 1),
    ensures
        x == runs[k].0,
        len == runs[k].1,
{
    assert(lists_run(runs, x, len));
    let m = choose|m: int| 0 <= m < runs.len() && (#[trigger] runs[m]).0 == x && runs[m].1 == len;
    if m < k {
        assert(runs[m].0 < runs[k].0);
    } else if m > k {
        if k + 1 < m {
            assert(runs[k + 1].0 < runs[m].0);
        }
    }
}

/// A run that starts left of where the scan stands is one of the runs done.
pub(crate) proof fn lemma_run_before_frontier(mask: Seq<u8>, w: int, y: int, runs: Seq<(usize, usize)>, k: int, x: int, len: int)
    requires
        is_row_runs(mask, w, y, runs),
        0 <= k <= runs.len(),
        is_run(mask, w, y, x, len),
        x < frontier(runs, w, k),
    ensures
        exists|m: int| 0 <= m < k && (#[trigger] runs[m]).0 == x && runs[m].1 == len,
{
    assert(lists_run(runs, x, len));
    let m = choose|m: int| 0 <= m < runs.len() && (#[trigger] runs[m]).0 == x && runs[m].1 == len;
    if m > k {
        assert(runs[k].0 < runs[m].0);
    }
    assert(m < k);
}

/// The scan moves to the right.
pub(crate) proof fn lemma_frontier_advances(mask: Seq<u8>, w: int, y: int, runs: Seq<(usize, usize)>, k: int)
    requires
        is_row_runs(mask, w, y, runs),
        0 <= k < runs.len(),
    ensures
        frontier(runs, w, k) < frontier(runs, w, k + 1) <= w,
{
    assert(is_run(mask, w, y, runs[k].0 as int, runs[k].1 as int));
    if k + 1 < runs.len() {
        assert(runs[k].0 < runs[k + 1].0);
        assert(is_run(mask, w, y, runs[k + 1].0 as int, runs[k + 1].1 as int));
    }
}

/// Keys tell runs apart.
pub(crate) proof fn lemma_run_key_injective(x1: int, len1: int, x2: int, len2: int)
    requires
        0 <= x1,
        0 <= x2,
        0 <= len1 < 0x1_0000_0000,
        0 <= len2 < 0x1_0000_0000,
        run_key(x1, len1) == run_key(x2, len2),
    ensures
        x1 == x2,
        len1 == len2,
{
}

/// Before any run of row `y` is merged, the state is that of the rows above.
pub(crate) proof fn lemma_row_start(mask: Seq<u8>, w: int, y: int, runs: Seq<(usize, usize)>, before: Seq<Rect>)
    requires
        is_row_runs(mask, w, y, runs),
    ensures
        row_merged_up_to(mask, w, y, frontier(runs, w, 0), before, before, Map::<u64, usize>::empty()),
{
    let fx = frontier(runs, w, 0);
    assert forall|x: int, len: int| #[trigger] is_run(mask, w, y, x, len) implies x >= fx by {
        if x < fx {
            lemma_run_before_frontier(mask, w, y, runs, 0, x, len);
        }
    }
    assert forall|i: int| 0 <= i < before.len() implies #[trigger] before[i] == grown(
        mask,
        w,
        y,
        fx,
        before[i],
    ) by {
        let r = before[i];
        if is_run(mask, w, y, r.x as int, r.w as int) {
        }
    }
}

/// An old rectangle that the current run does not continue is left as it is
/// when the scan moves over that run.
pub(crate) proof fn lemma_grown_unchanged(
    mask: Seq<u8>,
    w: int,
    y: int,
    runs: Seq<(usize, usize)>,
    k: int,
    r: Rect,
)
    requires
        is_row_runs(mask, w, y, runs),
        0 <= k < runs.len(),
        !(r.y + r.h == y && r.x == runs[k].0 && r.w == runs[k].1),
    ensures
        grown(mask, w, y, frontier(runs, w, k + 1), r) == grown(mask, w, y, frontier(runs, w, k), r),
{
    lemma_frontier_advances(mask, w, y, runs, k);
    if r.y + r.h == y && is_run(mask, w, y, r.x as int, r.w as int) && frontier(runs, w, k) <= r.x
        < frontier(runs, w, k + 1) {
        lemma_run_in_gap(mask, w, y, runs, k, r.x as int, r.w as int);
    }
}

/// The runs left of the new frontier have a key in the new map.
pub(crate) proof fn lemma_next_keys(
    mask: Seq<u8>,
    w: int,
    y: int,
    runs: Seq<(usize, usize)>,
    k: int,
    next: Map<u64, usize>,
    at: usize,
)
    requires
        is_row_runs(mask, w, y, runs),
        0 <= k < runs.len(),
        forall|x: int, len: int| #[trigger]
            is_run(mask, w, y, x, len) && x < frontier(runs, w, k) ==> next.contains_key(
                run_key(x, len) as u64,
            ),
    ensures
        forall|x: int, len: int| #[trigger]
            is_run(mask, w, y, x, len) && x < frontier(runs, w, k + 1) ==> next.insert(
                run_key(runs[k].0 as int, runs[k].1 as int) as u64,
                at,
            ).contains_key(run_key(x, len) as u64),
{
    assert forall|x: int, len: int| #[trigger]
        is_run(mask, w, y, x, len) && x < frontier(runs, w, k + 1) implies next.insert(
        run_key(runs[k].0 as int, runs[k].1 as int) as u64,
        at,
    ).contains_key(run_key(x, len) as u64) by {
        if x >= frontier(runs, w, k) {
            lemma_run_in_gap(mask, w, y, runs, k, x, len);
        }
    }
}

/// Merging a run that continues the rectangle at `at`.
pub(crate) proof fn lemma_step_grow(
    mask: Seq<u8>,
    w: int,
    y: int,
    runs: Seq<(usize, usize)>,
    k: int,
    before: Seq<Rect>,
    active: Map<u64, usize>,
    mid: Seq<Rect>,
    mid_next: Map<u64, usize>,
    key: u64,
    at: usize,
)
    requires
        0 <= w <= u32::MAX,
        0 <= y < u32::MAX,
        is_row_runs(mask, w, y, runs),
        0 <= k < runs.len(),
        is_frame_rect_set(mask, w, y, before),
        is_active_map(active, mask, w, y, before),
        row_merged_up_to(mask, w, y, frontier(runs, w, k), before, mid, mid_next),
        key == run_key(runs[k].0 as int, runs[k].1 as int),
        active.contains_key(key),
        at == active[key],
    ensures
        at < before.len(),
        mid[at as int] == before[at as int],
        mid[at as int].h < u32::MAX,
        row_merged_up_to(
            mask,
            w,
            y,
            frontier(runs, w, k + 1),
            before,
            mid.update(at as int, Rect { h: (mid[at as int].h + 1) as u32, ..mid[at as int] }),
            mid_next.insert(key, at),
        ),
{
    let fx = frontier(runs, w, k);
    let fx2 = frontier(runs, w, k + 1);
    let x = runs[k].0 as int;
    let len = runs[k].1 as int;
    let a = at as int;
    let o = before[a];
    lemma_frontier_advances(mask, w, y, runs, k);
    assert(is_run(mask, w, y, x, len));
    assert(is_merged_rect(mask, w, y, o));
    lemma_run_key_injective(o.x as int, o.w as int, x, len);
    assert(mid[a] == grown(mask, w, y, fx, o));
    let rects = mid.update(a, Rect { h: (mid[a].h + 1) as u32, ..mid[a] });
    let next = mid_next.insert(key, at);
    assert forall|i: int| 0 <= i < before.len() implies #[trigger] rects[i] == grown(
        mask,
        w,
        y,
        fx2,
        before[i],
    ) by {
        if i != a {
            let p = before[i];
            assert(mid[i] == grown(mask, w, y, fx, p));
            if p.y + p.h == y && p.x == x && p.w == len {
                assert(is_merged_rect(mask, w, y, p));
                lemma_merged_rects_sharing_row(mask, w, y, p, o, y - 1);
                lemma_rect_set_no_duplicates(mask, w, y, before, i, a);
            }
            lemma_grown_unchanged(mask, w, y, runs, k, p);
        }
    }
    assert forall|i: int| before.len() <= i < rects.len() implies is_opened(
        mask,
        w,
        y,
        fx2,
        #[trigger] rects[i],
    ) by {
        assert(is_opened(mask, w, y, fx, mid[i]));
    }
    assert forall|key2: u64| #[trigger] next.contains_key(key2) implies ({
        let i = next[key2] as int;
        &&& i < rects.len()
        &&& key2 == run_key(rects[i].x as int, rects[i].w as int)
        &&& rects[i].y + rects[i].h == y + 1
    }) by {
        if key2 != key {
            assert(mid_next.contains_key(key2));
        }
    }
    lemma_next_keys(mask, w, y, runs, k, mid_next, at);
}

/// Merging a run that continues no rectangle: it opens one.
pub(crate) proof fn lemma_step_open(
    mask: Seq<u8>,
    w: int,
    y: int,
    runs: Seq<(usize, usize)>,
    k: int,
    before: Seq<Rect>,
    active: Map<u64, usize>,
    mid: Seq<Rect>,
    mid_next: Map<u64, usize>,
    key: u64,
)
    requires
        0 <= w <= u32::MAX,
        0 <= y < u32::MAX,
        is_row_runs(mask, w, y, runs),
        0 <= k < runs.len(),
        is_frame_rect_set(mask, w, y, before),
        is_active_map(active, mask, w, y, before),
        row_merged_up_to(mask, w, y, frontier(runs, w, k), before, mid, mid_next),
        key == run_key(runs[k].0 as int, runs[k].1 as int),
        !active.contains_key(key),
        mid.len() <= usize::MAX,
    ensures
        row_merged_up_to(
            mask,
            w,
            y,
            frontier(runs, w, k + 1),
            before,
            mid.push(
                Rect { x: runs[k].0 as u32, y: y as u32, w: runs[k].1 as u32, h: 1, v: 1 },
            ),
            mid_next.insert(key, mid.len() as usize),
        ),
{
    let fx = frontier(runs, w, k);
    let fx2 = frontier(runs, w, k + 1);
    let x = runs[k].0 as int;
    let len = runs[k].1 as int;
    lemma_frontier_advances(mask, w, y, runs, k);
    assert(is_run(mask, w, y, x, len));
    assert(!run_above(mask, w, y, x, len));
    let opened = Rect { x: runs[k].0 as u32, y: y as u32, w: runs[k].1 as u32, h: 1, v: 1 };
    let rects = mid.push(opened);
    let next = mid_next.insert(key, mid.len() as usize);
    assert forall|i: int| 0 <= i < before.len() implies #[trigger] rects[i] == grown(
        mask,
        w,
        y,
        fx2,
        before[i],
    ) by {
        let p = before[i];
        assert(mid[i] == grown(mask, w, y, fx, p));
        if p.y + p.h == y && p.x == x && p.w == len {
            assert(is_merged_rect(mask, w, y, p));
            assert(is_run(mask, w, y - 1, p.x as int, p.w as int));
        }
        lemma_grown_unchanged(mask, w, y, runs, k, p);
    }
    assert forall|i: int| before.len() <= i < rects.len() implies is_opened(
        mask,
        w,
        y,
        fx2,
        #[trigger] rects[i],
    ) by {
        if i < mid.len() {
            assert(is_opened(mask, w, y, fx, mid[i]));
        }
    }
    assert forall|i: int, j: int| before.len() <= i < j < rects.len() implies (#[trigger] rects[i]).x
        < (#[trigger] rects[j]).x by {
        assert(is_opened(mask, w, y, fx, mid[i]));
    }
    assert forall|key2: u64| #[trigger] next.contains_key(key2) implies ({
        let i = next[key2] as int;
        &&& i < rects.len()
        &&& key2 == run_key(rects[i].x as int, rects[i].w as int)
        &&& rects[i].y + rects[i].h == y + 1
    }) by {
        if key2 != key {
            assert(mid_next.contains_key(key2));
        }
    }
    lemma_next_keys(mask, w, y, runs, k, mid_next, mid.len() as usize);
}

/// When all runs of row `y` are merged, the rectangles are the rectangle set
/// of the rows up to and including `y`.
pub(crate) proof fn lemma_row_done(
    mask: Seq<u8>,
    w: int,
    y: int,
    before: Seq<Rect>,
    rects: Seq<Rect>,
    next: Map<u64, usize>,
)
    requires
        0 <= w <= u32::MAX,
        0 <= y < u32::MAX,
        is_frame_rect_set(mask, w, y, before),
        row_merged_up_to(mask, w, y, w, before, rects, next),
    ensures
        is_frame_rect_set(mask, w, y + 1, rects),
        is_active_map(next, mask, w, y + 1, rects),
{
    assert forall|i: int| 0 <= i < rects.len() implies is_merged_rect(
        mask,
        w,
        y + 1,
        #[trigger] rects[i],
    ) by {
        if i < before.len() {
            let o = before[i];
            assert(is_merged_rect(mask, w, y, o));
            assert(rects[i] == grown(mask, w, y, w, o));
        } else {
            assert(is_opened(mask, w, y, w, rects[i]));
        }
    }
    assert forall|r: Rect| #[trigger] is_merged_rect(mask, w, y + 1, r) implies rects.contains(
        r,
    ) by {
        if r.y + r.h <= y {
            assert(is_merged_rect(mask, w, y, r));
            assert(before.contains(r));
            let i = choose|i: int| 0 <= i < before.len() && before[i] == r;
            assert(rects[i] == grown(mask, w, y, w, before[i]));
            assert(rects[i] == r);
        } else if r.h > 1 {
            let o = Rect { h: (r.h - 1) as u32, ..r };
            assert(is_merged_rect(mask, w, y, o));
            assert(before.contains(o));
            let i = choose|i: int| 0 <= i < before.len() && before[i] == o;
            assert(is_run(mask, w, y, r.x as int, r.w as int));
            assert(rects[i] == grown(mask, w, y, w, before[i]));
            assert(rects[i] == r);
        } else {
            assert(is_run(mask, w, y, r.x as int, r.w as int));
            let key = run_key(r.x as int, r.w as int) as u64;
            assert(next.contains_key(key));
            let i = next[key] as int;
            lemma_run_key_injective(rects[i].x as int, rects[i].w as int, r.x as int, r.w as int);
            if i < before.len() {
                let o = before[i];
                assert(rects[i] == grown(mask, w, y, w, o));
                assert(is_merged_rect(mask, w, y, o));
                assert(is_run(mask, w, y - 1, o.x as int, o.w as int));
            } else {
                assert(is_opened(mask, w, y, w, rects[i]));
            }
            assert(rects[i] == r);
        }
    }
    assert forall|i: int, j: int| 0 <= i < j < rects.len() implies origin_before(
        #[trigger] rects[i],
        #[trigger] rects[j],
    ) by {
        if i < before.len() {
            assert(is_merged_rect(mask, w, y, before[i]));
            assert(rects[i] == grown(mask, w, y, w, before[i]));
        } else {
            assert(is_opened(mask, w, y, w, rects[i]));
        }
        if j < before.len() {
            assert(origin_before(before[i], before[j]));
            assert(rects[j] == grown(mask, w, y, w, before[j]));
        } else {
            assert(is_opened(mask, w, y, w, rects[j]));
        }
    }
}

} // verus!
