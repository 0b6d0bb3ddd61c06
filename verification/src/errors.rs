use vstd::prelude::*;

verus! {

/// Why a split plan could not be produced.
#[derive(Debug, Clone, Copy, PartialEq, Eq, Structural)]
pub enum SplitError {
    /// Neither trim syntax matched anywhere in the script.
    NoTrims,
    /// A frame number in the script does not fit the machine word used for
    /// frames; `at` is the position of the offending match.
    FrameTooLarge { at: usize },
    /// A delay amount in the audio file name does not fit a signed 64-bit count.
    DelayTooLarge,
    /// A cut point lies at or beyond the 24-hour mark, which the timecode form cannot carry.
    TimeTooLarge,
}

} // verus!
