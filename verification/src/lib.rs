//! A verified core for a commit-history time-lapse renderer.
//!
//! The library has two halves. The analyzer folds an ordered stream of
//! per-commit diff events into an immutable model: one identity record per
//! logical file (surviving renames), a per-line edit history, and a committer
//! registry. The renderer answers, for any simulated instant, which files are
//! alive, how many lines each has, and how warm or who last touched each
//! line, and turns that into a grid of pixel cells.
//!
//! Repository access, image encoding, color spaces and the parallel frame
//! fan-out live outside the library; it works on plain values only.

pub mod analyzer;
pub mod cli;
pub mod model;
pub mod paths;
pub mod renderer;
