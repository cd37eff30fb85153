//! Frames to rectangles: the executable functions.

use std::collections::HashMap;
use vstd::prelude::*;
use vstd::std_specs::hash::*;

use crate::mask::{
    binarized, cell_index, cell_on, intensity_sum, is_binary_mask, is_frame_rect_set, is_row_runs,
    is_run, lemma_cell_index_in_bounds, lemma_run_length_unique, lists_run,
};
use crate::row_merge::{
    frontier, is_active_map, lemma_row_done, lemma_row_start, lemma_step_grow, lemma_step_open,
    row_merged_up_to, run_key,
};

verus! {

/// An axis-aligned rectangle of lit cells: top-left corner `(x, y)`, `w` cells
/// wide and `h` cells high. `v` is the value of its cells, always 1.
#[derive(Clone, Copy, Debug, PartialEq, Eq, Structural)]
pub struct Rect {
    pub x: u32,
    pub y: u32,
    pub w: u32,
    pub h: u32,
    pub v: u8,
}

/// The configuration of one conversion: the size of the animation, its frame
/// rate, the polarity of the masks and the threshold multiplier.
///
/// `fps` is handed on to the payload and used for nothing else. The threshold
/// multiplier scales the mean intensity of a frame into its threshold; that
/// product is arithmetic on real numbers and is the caller's, so the multiplier
/// is kept here as the bit pattern of a single-precision number, which is
/// enough to tell whether it is a positive number and to hand it on unchanged.
#[derive(Clone, Copy, Debug, PartialEq, Eq, Structural)]
pub struct ConvertRectframesOpts {
    pub w: u32,
    pub h: u32,
    pub fps: u32,
    pub invert: bool,
    pub th_mul_bits: u32,
}

/// A decoded frame: `width` by `height` intensities, row after row.
#[derive(Debug)]
pub struct GrayFrame {
    pub width: u32,
    pub height: u32,
    pub pixels: Vec<u8>,
}

impl GrayFrame {
    /// The buffer holds one intensity for each pixel.
    pub open spec fn wf(&self) -> bool {
        self.pixels@.len() == self.width * self.height
    }
}

/// What the frame source delivers for one frame of the animation.
#[derive(Debug)]
pub enum FrameInput {
    /// The frame, and the number of intensity levels that lie below the
    /// frame's threshold: a pixel is below the threshold exactly when its
    /// intensity is less than `cutoff`.
    Decoded { frame: GrayFrame, cutoff: u16 },
    /// The frame could not be decoded.
    Undecodable,
}

/// What is wrong with a configuration.
#[derive(Clone, Copy, Debug, PartialEq, Eq, Structural)]
pub enum ConfigurationFault {
    /// The threshold multiplier is not a positive number.
    InvalidThresholdMultiplier,
    /// There is no frame to convert.
    NoFrames,
}

/// Why a conversion was given up. `frame` counts the frames from 0.
#[derive(Clone, Copy, Debug, PartialEq, Eq, Structural)]
pub enum ConvertError {
    /// The configuration is refused; no frame was looked at.
    Configuration(ConfigurationFault),
    /// Frame `frame` is not a grayscale frame: it could not be decoded, or its
    /// buffer does not hold `width * height` intensities.
    FrameDecode { frame: usize },
    /// Frame `frame` does not have the size of the animation.
    DimensionMismatch {
        frame: usize,
        expected_width: u32,
        expected_height: u32,
        width: u32,
        height: u32,
    },
}

/// The result of a conversion: the configuration, the mean threshold of the
/// frames, and one rectangle set for each frame, in the order of the frames.
#[derive(Debug)]
pub struct Payload {
    pub width: u32,
    pub height: u32,
    pub fps: u32,
    pub threshold: u32,
    pub th_mul_bits: u32,
    pub invert: bool,
    pub frames_count: usize,
    pub rect_frames: Vec<Vec<Rect>>,
}

/// `bits` is the bit pattern of a single-precision number that is positive and
/// finite: the sign bit is clear, the exponent is not all ones, and the number
/// is not zero.
pub open spec fn is_positive_multiplier(bits: u32) -> bool {
    0 < bits < 0x7F80_0000
}

/// Why the decoded frame number `i` cannot be converted, if it cannot: its
/// buffer does not hold one intensity for each pixel, or it is of another size
/// than the animation.
pub open spec fn gray_frame_fault(opts: ConvertRectframesOpts, i: int, frame: GrayFrame) -> Option<
    ConvertError,
> {
    if !frame.wf() {
        Some(ConvertError::FrameDecode { frame: i as usize })
    } else if frame.width != opts.w || frame.height != opts.h {
        Some(
            ConvertError::DimensionMismatch {
                frame: i as usize,
                expected_width: opts.w,
                expected_height: opts.h,
                width: frame.width,
                height: frame.height,
            },
        )
    } else {
        None
    }
}

/// Why frame `i` cannot be converted, if it cannot: it is not a grayscale
/// frame, or it is one of another size than the animation.
pub open spec fn frame_fault(opts: ConvertRectframesOpts, i: int, input: FrameInput) -> Option<
    ConvertError,
> {
    match input {
        FrameInput::Undecodable => Some(ConvertError::FrameDecode { frame: i as usize }),
        FrameInput::Decoded { frame, cutoff } => gray_frame_fault(opts, i, frame),
    }
}

/// The fault of the first of the frames `0..n` that has one.
pub open spec fn first_frame_fault(opts: ConvertRectframesOpts, frames: Seq<FrameInput>, n: int) -> Option<
    ConvertError,
>
    decreases n,
{
    if n <= 0 {
        None
    } else {
        match first_frame_fault(opts, frames, n - 1) {
            Some(e) => Some(e),
            None => frame_fault(opts, n - 1, frames[n - 1]),
        }
    }
}

/// Why the conversion fails, if it does: the configuration is looked at first,
/// then the frames in their order.
pub open spec fn conversion_fault(opts: ConvertRectframesOpts, frames: Seq<FrameInput>) -> Option<
    ConvertError,
> {
    if !is_positive_multiplier(opts.th_mul_bits) {
        Some(ConvertError::Configuration(ConfigurationFault::InvalidThresholdMultiplier))
    } else if frames.len() == 0 {
        Some(ConvertError::Configuration(ConfigurationFault::NoFrames))
    } else {
        first_frame_fault(opts, frames, frames.len() as int)
    }
}

/// The binary mask of a decoded frame.
pub open spec fn frame_mask(input: FrameInput, invert: bool) -> Seq<u8> {
    match input {
        FrameInput::Decoded { frame, cutoff } => binarized(frame.pixels@, cutoff as int, invert),
        FrameInput::Undecodable => Seq::empty(),
    }
}

/// `payload` is what the conversion of `frames` under `opts` gives: the
/// configuration and `threshold` handed on, and for each frame the rectangle
/// set of its mask.
pub open spec fn is_payload_of(
    payload: Payload,
    opts: ConvertRectframesOpts,
    frames: Seq<FrameInput>,
    threshold: u8,
) -> bool {
    &&& payload.width == opts.w
    &&& payload.height == opts.h
    &&& payload.fps == opts.fps
    &&& payload.threshold == threshold
    &&& payload.th_mul_bits == opts.th_mul_bits
    &&& payload.invert == opts.invert
    &&& payload.frames_count == frames.len()
    &&& payload.rect_frames@.len() == frames.len()
    &&& forall|i: int|
        0 <= i < frames.len() ==> is_frame_rect_set(
            frame_mask(frames[i], opts.invert),
            opts.w as int,
            opts.h as int,
            (#[trigger] payload.rect_frames@[i])@,
        )
}

/// Tells whether `bits` is the bit pattern of a threshold multiplier that a
/// conversion accepts: a single-precision number that is positive and finite.
pub fn multiplier_is_positive(bits: u32) -> (ok: bool)
    ensures
        ok == is_positive_multiplier(bits),
{
    0 < bits && bits < 0x7F80_0000
}

/// Position of cell `(x, y)` in a row-major buffer whose rows are `w` cells wide.
#[inline]
pub fn idx(x: usize, y: usize, w: usize) -> (i: usize)
    requires
        cell_index(w as int, x as int, y as int) <= usize::MAX,
    ensures
        i == cell_index(w as int, x as int, y as int),
{
    assert(0 <= y * w <= y * w + x) by (nonlinear_arith);
    y * w + x
}

/// The sum of the intensities of all pixels of a grayscale buffer, from which
/// the caller takes the mean intensity of the frame.
pub fn pixel_sum(gray: &[u8]) -> (sum: u64)
    requires
        gray@.len() * 255 <= u64::MAX,
    ensures
        sum == intensity_sum(gray@),
{
    let mut sum: u64 = 0;
    let mut i: usize = 0;
    while i < gray.len()
        invariant
            gray@.len() * 255 <= u64::MAX,
            i <= gray@.len(),
            sum == intensity_sum(gray@.take(i as int)),
            sum <= i * 255,
        decreases gray@.len() - i,
    {
        assert(gray@.take(i + 1).drop_last() =~= gray@.take(i as int));
        sum += gray[i] as u64;
        i += 1;
    }
    assert(gray@.take(i as int) =~= gray@);
    sum
}

/// Thresholds a grayscale buffer into a binary mask of the same size. A cell
/// is on where the pixel's intensity is less than `cutoff`, the number of
/// intensity levels that lie below the frame's threshold; `invert` switches
/// every cell.
pub fn binarize(gray: &[u8], cutoff: u16, invert: bool) -> (mask: Vec<u8>)
    ensures
        mask@ == binarized(gray@, cutoff as int, invert),
{
    let mut mask: Vec<u8> = Vec::with_capacity(gray.len());
    let mut i: usize = 0;
    while i < gray.len()
        invariant
            i <= gray@.len(),
            mask@ == binarized(gray@.take(i as int), cutoff as int, invert),
        decreases gray@.len() - i,
    {
        let mut on = (gray[i] as u16) < cutoff;
        if invert {
            on = !on;
        }
        mask.push(
            if on {
                1
            } else {
                0
            },
        );
        i += 1;
        assert(mask@ =~= binarized(gray@.take(i as int), cutoff as int, invert));
    }
    assert(gray@.take(i as int) =~= gray@);
    mask
}

/// The runs of row `y` of a binary mask, from left to right, each as the pair
/// of its first column and its length.
pub fn row_runs(frame: &[u8], w: usize, h: usize, y: usize) -> (runs: Vec<(usize, usize)>)
    requires
        is_binary_mask(frame@, w as int, h as int),
        y < h,
    ensures
        is_row_runs(frame@, w as int, y as int, runs@),
{
    let mut runs: Vec<(usize, usize)> = Vec::new();
    let mut x: usize = 0;
    let cells: usize = frame.len();
    proof {
        assert forall|c: int| 0 <= c < w implies 0 <= #[trigger] cell_index(w as int, c, y as int)
            < frame@.len() by {
            lemma_cell_index_in_bounds(w as int, h as int, c, y as int);
        }
    }
    while x < w
        invariant
            is_binary_mask(frame@, w as int, h as int),
            frame@.len() == cells,
            forall|c: int| 0 <= c < w ==> 0 <= #[trigger] cell_index(w as int, c, y as int) < frame@.len(),
            x <= w,
            x == 0 || x == w || !cell_on(frame@, w as int, x - 1, y as int) || !cell_on(
                frame@,
                w as int,
                x as int,
                y as int,
            ),
            forall|k: int|
                0 <= k < runs.len() ==> is_run(
                    frame@,
                    w as int,
                    y as int,
                    (#[trigger] runs[k]).0 as int,
                    runs[k].1 as int,
                ) && runs[k].0 + runs[k].1 <= x,
            forall|s: int, len: int| #[trigger]
                is_run(frame@, w as int, y as int, s, len) && s < x ==> lists_run(runs@, s, len),
            forall|j: int, k: int|
                0 <= j < k < runs.len() ==> (#[trigger] runs[j]).0 < (#[trigger] runs[k]).0,
        decreases w - x,
    {
        if frame[idx(x, y, w)] == 0 {
            proof {
                assert forall|s: int, len: int| #[trigger]
                    is_run(frame@, w as int, y as int, s, len) && s < x + 1 implies lists_run(
                    runs@,
                    s,
                    len,
                ) by {
                    if s == x {
                        assert(cell_on(frame@, w as int, s, y as int));
                    }
                }
            }
            x += 1;
        } else {
            let start: usize = x;
            let ghost before = runs@;
            while x < w && frame[idx(x, y, w)] == 1
                invariant
                    frame@.len() == cells,
                    forall|c: int|
                        0 <= c < w ==> 0 <= #[trigger] cell_index(w as int, c, y as int)
                            < frame@.len(),
                    start <= x <= w,
                    forall|c: int| start <= c < x ==> cell_on(frame@, w as int, c, y as int),
                decreases w - x,
            {
                x += 1;
            }
            runs.push((start, x - start));
            proof {
                let len = x - start;
                assert(cell_on(frame@, w as int, start as int, y as int));
                assert(is_run(frame@, w as int, y as int, start as int, len));
                assert(runs@[before.len() as int] == (start, (x - start) as usize));
                assert forall|s: int, l: int| #[trigger]
                    is_run(frame@, w as int, y as int, s, l) && s < x implies lists_run(
                    runs@,
                    s,
                    l,
                ) by {
                    if s < start {
                        assert(lists_run(before, s, l));
                        let k = choose|k: int|
                            0 <= k < before.len() && (#[trigger] before[k]).0 == s && before[k].1
                                == l;
                        assert(runs@[k] == before[k]);
                    } else if s == start {
                        lemma_run_length_unique(frame@, w as int, y as int, s, l, len);
                    } else {
                        assert(cell_on(frame@, w as int, s - 1, y as int));
                    }
                }
            }
        }
    }
    runs
}

/// The key of the run `(x, len)`.
fn key_of_run(x: usize, len: usize) -> (key: u64)
    requires
        x <= u32::MAX,
        len <= u32::MAX,
    ensures
        key == run_key(x as int, len as int),
{
    (x as u64) * 0x1_0000_0000u64 + (len as u64)
}

/// Merges the runs of row `y` into the rectangles of the rows above it: a run
/// that row `y - 1` has too makes its rectangle one row higher, any other run
/// opens a rectangle at the end of `rects`. Returns the map from the keys of
/// this row's runs to their rectangles.
fn merge_row(
    rects: &mut Vec<Rect>,
    active: &HashMap<u64, usize>,
    runs: &Vec<(usize, usize)>,
    y: usize,
    Ghost(mask): Ghost<Seq<u8>>,
    Ghost(w): Ghost<int>,
) -> (next_active: HashMap<u64, usize>)
    requires
        0 <= w <= u32::MAX,
        y < u32::MAX,
        is_row_runs(mask, w, y as int, runs@),
        is_frame_rect_set(mask, w, y as int, old(rects)@),
        is_active_map(active@, mask, w, y as int, old(rects)@),
    ensures
        is_frame_rect_set(mask, w, y + 1, final(rects)@),
        is_active_map(next_active@, mask, w, y + 1, final(rects)@),
{
    broadcast use group_hash_axioms;

    let ghost before = rects@;
    let mut next_active: HashMap<u64, usize> = HashMap::new();
    let mut k: usize = 0;
    proof {
        lemma_row_start(mask, w, y as int, runs@, before);
        assert(next_active@ =~= Map::<u64, usize>::empty());
    }
    while k < runs.len()
        invariant
            0 <= w <= u32::MAX,
            y < u32::MAX,
            k <= runs.len(),
            is_row_runs(mask, w, y as int, runs@),
            is_frame_rect_set(mask, w, y as int, before),
            is_active_map(active@, mask, w, y as int, before),
            row_merged_up_to(
                mask,
                w,
                y as int,
                frontier(runs@, w, k as int),
                before,
                rects@,
                next_active@,
            ),
        decreases runs.len() - k,
    {
        let (x, run_w) = runs[k];
        assert(is_run(mask, w, y as int, x as int, run_w as int));
        let key: u64 = key_of_run(x, run_w);
        let ghost mid = rects@;
        let ghost mid_next = next_active@;
        match active.get(&key) {
            Some(found) => {
                let rect_idx: usize = *found;
                proof {
                    lemma_step_grow(
                        mask,
                        w,
                        y as int,
                        runs@,
                        k as int,
                        before,
                        active@,
                        mid,
                        mid_next,
                        key,
                        rect_idx,
                    );
                }
                let r: Rect = rects[rect_idx];
                rects.set(rect_idx, Rect { x: r.x, y: r.y, w: r.w, h: r.h + 1, v: r.v });
                next_active.insert(key, rect_idx);
            },
            None => {
                let rect_idx: usize = rects.len();
                proof {
                    lemma_step_open(
                        mask,
                        w,
                        y as int,
                        runs@,
                        k as int,
                        before,
                        active@,
                        mid,
                        mid_next,
                        key,
                    );
                }
                rects.push(Rect { x: x as u32, y: y as u32, w: run_w as u32, h: 1, v: 1 });
                next_active.insert(key, rect_idx);
            },
        }
        k += 1;
    }
    proof {
        lemma_row_done(mask, w, y as int, before, rects@, next_active@);
    }
    next_active
}

/// Decomposes a binary mask into rectangles.
///
/// Each row is cut into its runs of lit cells. A run that the row above has
/// too, with the same first column and the same length, makes that run's
/// rectangle one row higher; any other run opens a new rectangle. The result
/// is the rectangle set of the mask: every stacked run, once, in the order in
/// which the scan meets their top-left corners.
pub fn merge_frame_to_rects(frame: &[u8], w: usize, h: usize) -> (rects: Vec<Rect>)
    requires
        is_binary_mask(frame@, w as int, h as int),
        w <= u32::MAX,
        h <= u32::MAX,
    ensures
        is_frame_rect_set(frame@, w as int, h as int, rects@),
{
    broadcast use group_hash_axioms;

    let mut rects: Vec<Rect> = Vec::new();
    let mut active: HashMap<u64, usize> = HashMap::new();
    let mut y: usize = 0;
    while y < h
        invariant
            is_binary_mask(frame@, w as int, h as int),
            w <= u32::MAX,
            h <= u32::MAX,
            y <= h,
            is_frame_rect_set(frame@, w as int, y as int, rects@),
            is_active_map(active@, frame@, w as int, y as int, rects@),
        decreases h - y,
    {
        let runs: Vec<(usize, usize)> = row_runs(frame, w, h, y);
        active = merge_row(&mut rects, &active, &runs, y, Ghost(frame@), Ghost(w as int));
        y += 1;
    }
    rects
}

/// Once a frame has a fault, looking at more frames finds the same fault.
proof fn lemma_first_fault_stays(opts: ConvertRectframesOpts, frames: Seq<FrameInput>, i: int, n: int)
    requires
        0 <= i < n,
        first_frame_fault(opts, frames, i) is None,
        frame_fault(opts, i, frames[i]) is Some,
    ensures
        first_frame_fault(opts, frames, n) == frame_fault(opts, i, frames[i]),
    decreases n,
{
    if n > i + 1 {
        lemma_first_fault_stays(opts, frames, i, n - 1);
    }
}

/// Checks the decoded frame number `index` before anything is computed from
/// it: its buffer holds one intensity for each pixel, and it has the size of
/// the animation.
pub fn check_frame(opts: &ConvertRectframesOpts, index: usize, frame: &GrayFrame) -> (res: Result<
    (),
    ConvertError,
>)
    ensures
        match res {
            Ok(_) => gray_frame_fault(*opts, index as int, *frame) is None,
            Err(e) => gray_frame_fault(*opts, index as int, *frame) == Some(e),
        },
{
    assert(frame.width * frame.height <= u64::MAX) by (nonlinear_arith)
        requires
            frame.width <= u32::MAX,
            frame.height <= u32::MAX,
    ;
    let cells: u64 = (frame.width as u64) * (frame.height as u64);
    if frame.pixels.len() as u64 != cells {
        return Err(ConvertError::FrameDecode { frame: index });
    }
    if frame.width != opts.w || frame.height != opts.h {
        return Err(
            ConvertError::DimensionMismatch {
                frame: index,
                expected_width: opts.w,
                expected_height: opts.h,
                width: frame.width,
                height: frame.height,
            },
        );
    }
    Ok(())
}

/// Converts frame number `index`: checks that it is a grayscale frame of the
/// animation's size, thresholds it, and decomposes the mask into rectangles.
pub fn convert_frame(opts: &ConvertRectframesOpts, index: usize, input: &FrameInput) -> (res: Result<
    Vec<Rect>,
    ConvertError,
>)
    ensures
        match res {
            Ok(rects) => frame_fault(*opts, index as int, *input) is None && is_frame_rect_set(
                frame_mask(*input, opts.invert),
                opts.w as int,
                opts.h as int,
                rects@,
            ),
            Err(e) => frame_fault(*opts, index as int, *input) == Some(e),
        },
{
    match input {
        FrameInput::Undecodable => Err(ConvertError::FrameDecode { frame: index }),
        FrameInput::Decoded { frame, cutoff } => {
            match check_frame(opts, index, frame) {
                Ok(_) => {},
                Err(e) => {
                    return Err(e);
                },
            }
            let mask: Vec<u8> = binarize(frame.pixels.as_slice(), *cutoff, opts.invert);
            Ok(merge_frame_to_rects(mask.as_slice(), opts.w as usize, opts.h as usize))
        },
    }
}

/// What the first `n` frames give does not depend on the frames after them.
proof fn lemma_first_fault_of_prefix(
    opts: ConvertRectframesOpts,
    a: Seq<FrameInput>,
    b: Seq<FrameInput>,
    n: int,
)
    requires
        0 <= n <= a.len(),
        n <= b.len(),
        forall|i: int| 0 <= i < n ==> a[i] == b[i],
    ensures
        first_frame_fault(opts, a, n) == first_frame_fault(opts, b, n),
    decreases n,
{
    if n > 0 {
        lemma_first_fault_of_prefix(opts, a, b, n - 1);
    }
}

/// A conversion in progress: the configuration, and the rectangle sets of the
/// frames converted so far.
///
/// Frames are handed over one at a time with `push_frame`, so that the caller
/// needs to hold no more than one decoded frame; `finish` gives the payload.
pub struct Conversion {
    opts: ConvertRectframesOpts,
    rect_frames: Vec<Vec<Rect>>,
    frames: Ghost<Seq<FrameInput>>,
}

impl Conversion {
    /// The configuration of the conversion.
    pub closed spec fn opts(&self) -> ConvertRectframesOpts {
        self.opts
    }

    /// The frames converted so far, in their order.
    pub closed spec fn frames(&self) -> Seq<FrameInput> {
        self.frames@
    }

    /// The configuration is accepted, none of the frames has a fault, and for
    /// each of them the conversion holds the rectangle set of its mask.
    pub closed spec fn wf(&self) -> bool {
        &&& is_positive_multiplier(self.opts.th_mul_bits)
        &&& first_frame_fault(self.opts, self.frames@, self.frames@.len() as int) is None
        &&& self.rect_frames@.len() == self.frames@.len()
        &&& forall|i: int|
            0 <= i < self.frames@.len() ==> is_frame_rect_set(
                frame_mask(self.frames@[i], self.opts.invert),
                self.opts.w as int,
                self.opts.h as int,
                (#[trigger] self.rect_frames@[i])@,
            )
    }

    /// Starts a conversion, if the configuration is accepted.
    pub fn new(opts: ConvertRectframesOpts) -> (res: Result<Conversion, ConvertError>)
        ensures
            match res {
                Ok(conversion) => {
                    &&& is_positive_multiplier(opts.th_mul_bits)
                    &&& conversion.wf()
                    &&& conversion.opts() == opts
                    &&& conversion.frames() == Seq::<FrameInput>::empty()
                },
                Err(e) => {
                    &&& !is_positive_multiplier(opts.th_mul_bits)
                    &&& e == ConvertError::Configuration(
                        ConfigurationFault::InvalidThresholdMultiplier,
                    )
                },
            },
    {
        if !multiplier_is_positive(opts.th_mul_bits) {
            return Err(ConvertError::Configuration(ConfigurationFault::InvalidThresholdMultiplier));
        }
        Ok(Conversion { opts, rect_frames: Vec::new(), frames: Ghost(Seq::empty()) })
    }

    /// Converts the next frame and keeps its rectangle set. A frame with a
    /// fault is not taken: the conversion stays as it was.
    pub fn push_frame(&mut self, input: &FrameInput) -> (res: Result<(), ConvertError>)
        requires
            old(self).wf(),
        ensures
            final(self).wf(),
            final(self).opts() == old(self).opts(),
            match res {
                Ok(_) => {
                    &&& frame_fault(old(self).opts(), old(self).frames().len() as int, *input)
                        is None
                    &&& final(self).frames() == old(self).frames().push(*input)
                },
                Err(e) => {
                    &&& frame_fault(old(self).opts(), old(self).frames().len() as int, *input)
                        == Some(e)
                    &&& final(self).frames() == old(self).frames()
                },
            },
    {
        let ghost before = self.frames@;
        let ghost sets = self.rect_frames@;
        match convert_frame(&self.opts, self.rect_frames.len(), input) {
            Ok(rects) => {
                self.rect_frames.push(rects);
                self.frames = Ghost(before.push(*input));
                proof {
                    lemma_first_fault_of_prefix(
                        self.opts,
                        before,
                        self.frames@,
                        before.len() as int,
                    );
                    assert forall|i: int| 0 <= i < self.frames@.len() implies is_frame_rect_set(
                        frame_mask(self.frames@[i], self.opts.invert),
                        self.opts.w as int,
                        self.opts.h as int,
                        (#[trigger] self.rect_frames@[i])@,
                    ) by {
                        if i < before.len() {
                            assert(self.rect_frames@[i] == sets[i]);
                        }
                    }
                }
                Ok(())
            },
            Err(e) => Err(e),
        }
    }

    /// Ends the conversion. `threshold` is the mean of the frames' thresholds,
    /// which the caller has rounded; it is handed on to the payload. A
    /// conversion of no frames gives no payload.
    pub fn finish(self, threshold: u8) -> (res: Result<Payload, ConvertError>)
        requires
            self.wf(),
        ensures
            match res {
                Ok(payload) => self.frames().len() > 0 && is_payload_of(
                    payload,
                    self.opts(),
                    self.frames(),
                    threshold,
                ),
                Err(e) => self.frames().len() == 0 && e == ConvertError::Configuration(
                    ConfigurationFault::NoFrames,
                ),
            },
    {
        if self.rect_frames.len() == 0 {
            return Err(ConvertError::Configuration(ConfigurationFault::NoFrames));
        }
        Ok(
            Payload {
                width: self.opts.w,
                height: self.opts.h,
                fps: self.opts.fps,
                threshold: threshold as u32,
                th_mul_bits: self.opts.th_mul_bits,
                invert: self.opts.invert,
                frames_count: self.rect_frames.len(),
                rect_frames: self.rect_frames,
            },
        )
    }
}

/// Converts the frames of an animation into rectangle sets.
///
/// The configuration is checked before any frame is looked at. Then the frames
/// are converted in their order, and the first one that is not a grayscale
/// frame or does not have the size of the animation ends the conversion with
/// its fault.
/// `threshold` is the mean of the frames' thresholds, which the caller has
/// rounded; it is handed on to the payload.
pub fn convert_rectframes(opts: &ConvertRectframesOpts, frames: &Vec<FrameInput>, threshold: u8) -> (res:
    Result<Payload, ConvertError>)
    ensures
        match res {
            Ok(payload) => conversion_fault(*opts, frames@) is None && is_payload_of(
                payload,
                *opts,
                frames@,
                threshold,
            ),
            Err(e) => conversion_fault(*opts, frames@) == Some(e),
        },
{
    let mut conversion: Conversion = match Conversion::new(*opts) {
        Ok(conversion) => conversion,
        Err(e) => {
            return Err(e);
        },
    };
    let mut i: usize = 0;
    assert(frames@.take(0) =~= Seq::<FrameInput>::empty());
    while i < frames.len()
        invariant
            is_positive_multiplier(opts.th_mul_bits),
            i <= frames@.len(),
            conversion.wf(),
            conversion.opts() == *opts,
            conversion.frames() == frames@.take(i as int),
        decreases frames@.len() - i,
    {
        proof {
            lemma_first_fault_of_prefix(*opts, frames@.take(i as int), frames@, i as int);
        }
        match conversion.push_frame(&frames[i]) {
            Ok(_) => {
                assert(frames@.take(i + 1) =~= frames@.take(i as int).push(frames@[i as int]));
            },
            Err(e) => {
                proof {
                    lemma_first_fault_stays(*opts, frames@, i as int, frames@.len() as int);
                }
                return Err(e);
            },
        }
        i += 1;
    }
    assert(frames@.take(i as int) =~= frames@);
    conversion.finish(threshold)
}

} // verus!
