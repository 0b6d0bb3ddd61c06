//! Audio split planning for nonlinear-editing scripts.
//!
//! The library scans an editing script for trim expressions, converts the
//! frame indices they name into wall-clock timecodes, and decides which of
//! the resulting audio segments a merge step must keep.  All decisions are
//! made here, over plain values; reading files and running external tools is
//! left to the surrounding binary.

pub mod delay;
pub mod duration;
pub mod errors;
pub mod plan;
pub mod scan;
pub mod segments;
pub mod timecode;
pub mod trims;

pub use errors::SplitError;
pub use timecode::{Fps, Timecode};
