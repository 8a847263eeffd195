//! The configuration surface of a run: where the repository and the
//! output live, the frame dimensions, the heat window, and the color
//! mode.

use vstd::prelude::*;

verus! {

/// How a line's pixel row is colored.
#[derive(Debug, Clone, Copy, PartialEq, Eq, Structural)]
pub enum Mode {
    /// By change frequency inside the sliding window: cold to hot.
    HotCold,
    /// By the identity of the last committer to touch the line.
    Committer,
}

/// One run's configuration.
#[derive(Debug, Clone)]
pub struct Args {
    /// Location of the repository to analyze.
    pub repo: String,
    /// Directory the numbered frames are written to.
    pub output: String,
    /// Width of each frame in pixels.
    pub width: u32,
    /// Height of each frame in pixels.
    pub height: u32,
    /// Length of the sliding heat window, in days.
    pub window_days: u64,
    /// Visualization mode.
    pub mode: Mode,
}

} // verus!
