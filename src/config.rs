//! The integer settings of a run. The bounds of the sampled region are
//! doubles and live with the code that samples and maps points.
use vstd::prelude::*;

verus! {

/// Samples drawn over all workers.
pub const POINTS: u32 = 1000000;

/// Iteration budget of one orbit; an orbit has at most this many records.
pub const ITERATIONS: i32 = 1000000;

/// Threads of the generator: one writer and `THREADS - 1` workers.
pub const THREADS: u32 = 7;

/// Samples drawn by each worker.
pub const PPT: u32 = POINTS / THREADS;

/// Byte budget of a worker's scratch buffer.
pub const BUFSIZE: usize = 134217728;

/// Records that a scratch buffer holds.
pub const BUFELEMS: usize = BUFSIZE / 36;

pub const WIDTH: usize = 1920;
pub const HEIGHT: usize = 1080;

pub const FPS: usize = 30;
pub const SEC: usize = 15;

/// Frames of the animation.
pub const FRAMES: usize = SEC * FPS;

} // verus!
