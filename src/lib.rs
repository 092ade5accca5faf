//! Audio mixing and playback scheduling core.
//!
//! The mixer combines a changing set of sample sources into one channel-interleaved
//! output stream; the scheduler decides how the playback loop reacts to control
//! commands and how long it may sleep between decoder steps.

pub mod sample;
pub mod source;
pub mod mixer;
pub mod engine;
