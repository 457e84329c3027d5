//! Vibe check for a Git history: hotspots, ghost files, commit mood, bus
//! factor, activity trend and a graded overall score.
//!
//! Everything here works on plain values that the caller collects from a
//! repository; reading the repository itself is left to the program around
//! the library.

pub mod model;
pub mod clock;
pub mod period;
pub mod tree;
pub mod changes;
pub mod partition;
pub mod cover;
pub mod authors;
pub mod hotspots;
pub mod ghosts;
pub mod mood;
pub mod activity;
pub mod grades;
pub mod scoring;
pub mod report;
pub mod badge;
pub mod analysis;
