//! Rectangle-based compression of monochrome video frames, with the subtitle
//! cues that go with the animation.
//!
//! A grayscale frame is thresholded into a binary mask, every row of the mask is
//! cut into maximal horizontal runs of lit cells, and identical runs in
//! consecutive rows are stacked into rectangles. The functions here are proved
//! against a mathematical description of masks, runs and rectangles.
//!
//! - [`rectframes`]: the conversion of frames into rectangle sets.
//! - [`mask`]: the model that the contracts of `rectframes` speak of.
//! - [`laws`]: what holds of every rectangle set and of every mask.
//! - [`subs`]: subtitle cues read from SubRip text and ordered by their starts.
//! - [`srt`]: the grammar and the order that the contracts of `subs` speak of.
//! - [`regen`]: when a generated file has to be made again.
//!
//! The library is free of floating-point arithmetic. Where a number of the
//! animation is a real number, the caller computes with it and hands over an
//! integer that stands for it: the count of intensity levels below a frame's
//! threshold, the bit pattern of the threshold multiplier, the fields of a
//! subtitle time, the key by which a cue's start is ordered.

pub mod laws;
pub mod mask;
pub mod rectframes;
pub mod regen;
mod row_merge;
pub mod srt;
pub mod subs;
