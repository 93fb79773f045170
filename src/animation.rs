//! Splitting a log into the equal slices that the frames of the animation
//! add to the (cumulative) grids.
use crate::record::RECORD_SIZE;
use vstd::prelude::*;

verus! {

/// Records per frame when a log of `log_len` bytes is split into `frames`
/// frames; the whole records left over are not shown.
pub fn records_per_frame(log_len: u64, frames: usize) -> (r: u64)
    requires
        frames > 0,
    ensures
        r == (log_len / 36) / (frames as u64),
{
    (log_len / (RECORD_SIZE as u64)) / (frames as u64)
}

/// The records `start .. end` of the log that frame `f` adds, for frames of
/// `per_frame` records each.
pub fn frame_range(per_frame: u64, f: u64) -> (r: (u64, u64))
    requires
        (f + 1) * per_frame <= u64::MAX,
    ensures
        r.0 == f * per_frame,
        r.1 == (f + 1) * per_frame,
        r.1 - r.0 == per_frame,
{
    assert(f * per_frame <= (f + 1) * per_frame) by (nonlinear_arith);
    assert((f + 1) * per_frame == f * per_frame + per_frame) by (nonlinear_arith);
    let start: u64 = f * per_frame;
    (start, start + per_frame)
}

} // verus!
