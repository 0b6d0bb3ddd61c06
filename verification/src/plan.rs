use vstd::prelude::*;

use crate::errors::SplitError;
use crate::segments::{kept_from, select_segments, MergePlan};
use crate::timecode::{frame_millis, to_timecodes, Fps, Timecode, DAY_MILLIS};
use crate::trims::{
    extract_frames, extracted_frames, lemma_resolved_frames_len, lemma_slice_pairs_len,
    lemma_trim_frames_len, oversized_match_at, slice_pairs, trim_frames,
};

verus! {

/// The whole decision pipeline over one script: extract the cut frames under
/// an already-known total frame count, convert each to its timecode, and
/// select the segments to merge back.  Everything the run needs besides
/// running external tools comes out of this one call.
pub fn plan_split(script: &Vec<u8>, total: u64, fps: Fps) -> (r: Result<
    (Vec<Timecode>, MergePlan),
    SplitError,
>)
    requires
        fps.wf(),
        script.len() < usize::MAX,
    ensures
        match r {
            Ok((cuts, plan)) => {
                let fs = extracted_frames(script@, total as nat);
                &&& fs.len() > 0
                &&& cuts@.len() == fs.len()
                &&& forall|k: int|
                    0 <= k < fs.len() ==> (#[trigger] cuts@[k]).wf() && cuts@[k]@ == frame_millis(
                        fs[k],
                        fps,
                    ) && frame_millis(fs[k], fps) < DAY_MILLIS
                &&& plan.use_first == (frame_millis(fs[0], fps) == 0)
                &&& plan.kept@.map_values(|x: usize| x as nat) == kept_from(
                    0,
                    fs.len() + 1,
                    plan.use_first,
                )
            },
            Err(SplitError::NoTrims) => trim_frames(script@, 0).len() == 0 && slice_pairs(
                script@,
                0,
            ).len() == 0,
            Err(SplitError::FrameTooLarge { at }) => oversized_match_at(script@, at as nat),
            Err(SplitError::TimeTooLarge) => extracted_frames(script@, total as nat).len() > 0
                && exists|k: int|
                0 <= k < extracted_frames(script@, total as nat).len() && frame_millis(
                    #[trigger] extracted_frames(script@, total as nat)[k],
                    fps,
                ) >= DAY_MILLIS,
            Err(_) => false,
        },
{
    let frames = extract_frames(script, total)?;
    let ghost fs = extracted_frames(script@, total as nat);
    proof {
        lemma_trim_frames_len(script@, 0);
        lemma_slice_pairs_len(script@, 0);
        lemma_resolved_frames_len(slice_pairs(script@, 0), total as nat);
        assert(fs.len() <= script@.len());
        assert(forall|k: int|
            0 <= k < fs.len() ==> frames@.map_values(|x: u64| x as nat)[k] == frames@[k] as nat);
    }
    let cuts = to_timecodes(&frames, fps)?;
    let plan = select_segments(&cuts);
    Ok((cuts, plan))
}

} // verus!
